//! The text of a field reads back as the same field.
use vstd::prelude::*;

use crate::buildings::building_name;
use crate::entity::{entity_text, lemma_entity_round_trip, EntityView};
use crate::field::{dims_in_range, entries_text, entry_text, header_text, lists_tiles, parse_entry, parse_field, scan_body, scan_header};
use crate::locations::{is_pos_char, lemma_pos_round_trip, pos_text, Pos};
use crate::resources::resource_name;
use crate::text::{halves, is_lower_word, is_space, lemma_first_of_at, lemma_lower_word, lemma_split_all_none, lemma_split_all_prefix, lemma_trim_padded, split_all, trim};

verus! {

/// `s` holds no `c`.
pub open spec fn lacks(s: Seq<char>, c: char) -> bool
    decreases s.len(),
{
    s.len() == 0 || (s[0] != c && lacks(s.drop_first(), c))
}

proof fn lemma_lacks(s: Seq<char>, c: char)
    requires
        lacks(s, c),
    ensures
        forall|i: int| 0 <= i < s.len() ==> s[i] != c,
    decreases s.len(),
{
    if s.len() > 0 {
        lemma_lacks(s.drop_first(), c);
        assert forall|i: int| 0 <= i < s.len() implies s[i] != c by {
            if i > 0 {
                assert(s[i] == s.drop_first()[i - 1]);
            }
        }
    }
}

/// A player name that the text of a field can carry: no `;`, and no
/// whitespace at its end.
pub open spec fn storable_name(u: Seq<char>) -> bool {
    (forall|i: int| 0 <= i < u.len() ==> u[i] != ';') && (u.len() > 0 ==> !is_space(u.last()))
}

/// An entity whose player name, if any, the text of a field can carry.
pub open spec fn storable(e: EntityView) -> bool {
    match e {
        EntityView::Capital(u) => storable_name(u),
        EntityView::Keep(u) => storable_name(u),
        _ => true,
    }
}

/// Every player name on the tiles is storable.
pub open spec fn storable_tiles(m: Map<Pos, EntityView>) -> bool {
    forall|p: Pos| #[trigger] m.contains_key(p) ==> storable(m[p])
}

/// A lowercase word, a colon, and `arg`: no `;` if `arg` has none, and it
/// starts with a letter and ends like `arg` (or with the colon).
proof fn lemma_tagged(w: Seq<char>, arg: Seq<char>)
    requires
        is_lower_word(w),
        w.len() >= 1,
        forall|i: int| 0 <= i < arg.len() ==> arg[i] != ';',
        arg.len() > 0 ==> !is_space(arg.last()),
    ensures
        ({
            let t = w + seq![':'] + arg;
            &&& forall|i: int| 0 <= i < t.len() ==> t[i] != ';'
            &&& t.len() >= 1
            &&& !is_space(t[0])
            &&& !is_space(t.last())
        }),
{
    lemma_lower_word(w);
    let t = w + seq![':'] + arg;
    assert forall|i: int| 0 <= i < t.len() implies t[i] != ';' by {
        if i < w.len() {
            assert(t[i] == w[i]);
        } else if i > w.len() {
            assert(t[i] == arg[i - w.len() - 1]);
        }
    }
    assert(t[0] == w[0]);
    if arg.len() > 0 {
        assert(t.last() == arg.last());
    }
}

/// The text of a storable entity has no `;` and no whitespace at its ends.
proof fn lemma_entity_text_shape(e: EntityView)
    requires
        storable(e),
    ensures
        forall|i: int| 0 <= i < entity_text(e).len() ==> entity_text(e)[i] != ';',
        entity_text(e).len() >= 1,
        !is_space(entity_text(e)[0]),
        !is_space(entity_text(e).last()),
{
    reveal_strlit("capital");
    reveal_strlit("keep");
    reveal_strlit("capital:");
    reveal_strlit("keep:");
    reveal_strlit("stockpile:");
    reveal_strlit("construction:");
    reveal_strlit("construction");
    reveal_strlit("raider");
    reveal_strlit("warrior");
    reveal_strlit("ram");
    reveal_strlit("farm");
    reveal_strlit("woodcutter");
    reveal_strlit("quarry");
    reveal_strlit("lair");
    reveal_strlit("barracks");
    reveal_strlit("stockpile");
    reveal_strlit("road");
    reveal_strlit("tradepost");
    reveal_strlit("scoutpost");
    reveal_strlit("forest");
    reveal_strlit("swamp");
    reveal_strlit("rock");
    reveal_strlit("food");
    reveal_strlit("wood");
    reveal_strlit("stone");
    reveal_strlit("iron");
    reveal_with_fuel(is_lower_word, 14);
    let t = entity_text(e);
    match e {
        EntityView::Capital(u) => {
            assert("capital:"@ =~= "capital"@ + seq![':']);
            lemma_tagged("capital"@, u);
        },
        EntityView::Keep(u) => {
            assert("keep:"@ =~= "keep"@ + seq![':']);
            lemma_tagged("keep"@, u);
        },
        EntityView::Stockpile(Some(r)) => {
            assert("stockpile:"@ =~= "stockpile"@ + seq![':']);
            assert(is_lower_word(resource_name(r)));
            lemma_lower_word(resource_name(r));
            lemma_tagged("stockpile"@, resource_name(r));
        },
        EntityView::Construction(b) => {
            assert("construction:"@ =~= "construction"@ + seq![':']);
            assert(is_lower_word(building_name(b)));
            lemma_lower_word(building_name(b));
            lemma_tagged("construction"@, building_name(b));
        },
        _ => {
            assert(is_lower_word(t));
            lemma_lower_word(t);
        },
    }
}

/// The text of one tile without its closing `"; "`.
pub open spec fn item_text(p: Pos, e: EntityView) -> Seq<char> {
    pos_text(p) + seq![' '] + entity_text(e)
}

/// The text of a tile has no `;`, no whitespace at its ends, and reads back
/// as that tile, also behind whitespace.
proof fn lemma_item(p: Pos, e: EntityView, pad: Seq<char>)
    requires
        storable(e),
        forall|i: int| 0 <= i < pad.len() ==> #[trigger] is_space(pad[i]),
    ensures
        forall|i: int| 0 <= i < item_text(p, e).len() ==> item_text(p, e)[i] != ';',
        parse_entry(pad + item_text(p, e)) == Some(Ok::<(Pos, EntityView), Seq<char>>((p, e))),
{
    let pt = pos_text(p);
    let et = entity_text(e);
    let a = item_text(p, e);
    lemma_pos_round_trip(p);
    lemma_entity_text_shape(e);
    lemma_entity_round_trip(e);
    assert forall|i: int| 0 <= i < a.len() implies a[i] != ';' by {
        if i < pt.len() {
            assert(a[i] == pt[i]);
            assert(is_pos_char(pt[i]));
        } else if i > pt.len() {
            assert(a[i] == et[i - pt.len() - 1]);
        }
    }
    assert(a[0] == pt[0]);
    assert(is_pos_char(pt[0]));
    assert(a.last() == et.last());
    lemma_trim_padded(pad, a);
    assert forall|j: int| 0 <= j < pt.len() implies a[j] != ' ' by {
        assert(a[j] == pt[j]);
        assert(is_pos_char(pt[j]));
    }
    lemma_first_of_at(a, ' ', pt.len() as int);
    assert(a.subrange(0, pt.len() as int) =~= pt);
    assert(a.subrange(pt.len() as int + 1, a.len() as int) =~= et);
}

/// The text of a list of tiles is the text of its first tile, then the rest.
proof fn lemma_entries_front(es: Seq<(Pos, EntityView)>)
    requires
        es.len() > 0,
    ensures
        entries_text(es) == entry_text(es[0].0, es[0].1) + entries_text(es.drop_first()),
    decreases es.len(),
{
    if es.len() > 1 {
        lemma_entries_front(es.drop_last());
        assert(es.drop_last().drop_first() =~= es.drop_first().drop_last());
        assert(es.drop_last()[0] == es[0]);
        assert(es.drop_first().last() == es.last());
    } else {
        assert(es.drop_first() =~= Seq::<(Pos, EntityView)>::empty());
        assert(es.drop_last() =~= Seq::<(Pos, EntityView)>::empty());
    }
}

/// The pieces that splitting `pre` and the text of `es` at `;` gives.
pub open spec fn body_pieces(pre: Seq<char>, es: Seq<(Pos, EntityView)>) -> Seq<Seq<char>>
    decreases es.len(),
{
    if es.len() == 0 {
        seq![pre]
    } else {
        seq![pre + item_text(es[0].0, es[0].1)] + body_pieces(seq![' '], es.drop_first())
    }
}

/// Inserting the tiles of `es` into `m`, first to last.
pub open spec fn insert_all(m: Map<Pos, EntityView>, es: Seq<(Pos, EntityView)>) -> Map<Pos, EntityView>
    decreases es.len(),
{
    if es.len() == 0 {
        m
    } else {
        insert_all(m.insert(es[0].0, es[0].1), es.drop_first())
    }
}

proof fn lemma_split_body(pre: Seq<char>, es: Seq<(Pos, EntityView)>)
    requires
        forall|i: int| 0 <= i < pre.len() ==> #[trigger] is_space(pre[i]),
        forall|i: int| 0 <= i < es.len() ==> storable(#[trigger] es[i].1),
    ensures
        split_all(pre + entries_text(es), ';') == body_pieces(pre, es),
    decreases es.len(),
{
    assert forall|i: int| 0 <= i < pre.len() implies pre[i] != ';' by {
        assert(is_space(pre[i]));
    }
    if es.len() == 0 {
        assert(pre + entries_text(es) =~= pre);
        lemma_split_all_none(pre, ';');
    } else {
        lemma_entries_front(es);
        let a = item_text(es[0].0, es[0].1);
        lemma_item(es[0].0, es[0].1, pre);
        let rest = es.drop_first();
        reveal_strlit(" ");
        reveal_strlit("; ");
        assert(entry_text(es[0].0, es[0].1) =~= a + seq![';'] + seq![' ']);
        assert(pre + entries_text(es) =~= (pre + a) + seq![';'] + (seq![' '] + entries_text(rest)));
        assert forall|i: int| 0 <= i < (pre + a).len() implies (pre + a)[i] != ';' by {
            if i >= pre.len() {
                assert((pre + a)[i] == a[i - pre.len()]);
            }
        }
        lemma_split_all_prefix(pre + a, seq![' '] + entries_text(rest), ';');
        assert forall|i: int| 0 <= i < rest.len() implies storable(#[trigger] rest[i].1) by {
            assert(rest[i] == es[i + 1]);
        }
        lemma_split_body(seq![' '], rest);
    }
}

proof fn lemma_scan_pieces(pre: Seq<char>, es: Seq<(Pos, EntityView)>, m: Map<Pos, EntityView>)
    requires
        forall|i: int| 0 <= i < pre.len() ==> #[trigger] is_space(pre[i]),
        forall|i: int| 0 <= i < es.len() ==> storable(#[trigger] es[i].1),
    ensures
        scan_body(body_pieces(pre, es), m) == Ok::<Map<Pos, EntityView>, Seq<char>>(insert_all(m, es)),
    decreases es.len(),
{
    let pieces = body_pieces(pre, es);
    if es.len() == 0 {
        lemma_trim_all_space(pre);
        assert(pieces == seq![pre]);
        assert(parse_entry(pieces[0]) is None);
        assert(pieces.drop_first() =~= Seq::<Seq<char>>::empty());
        assert(scan_body(pieces, m) == scan_body(pieces.drop_first(), m));
    } else {
        lemma_item(es[0].0, es[0].1, pre);
        let rest = es.drop_first();
        assert forall|i: int| 0 <= i < rest.len() implies storable(#[trigger] rest[i].1) by {
            assert(rest[i] == es[i + 1]);
        }
        let m1 = m.insert(es[0].0, es[0].1);
        lemma_scan_pieces(seq![' '], rest, m1);
        assert(pieces[0] == pre + item_text(es[0].0, es[0].1));
        assert(pieces.drop_first() =~= body_pieces(seq![' '], rest));
        assert(parse_entry(pieces[0]) == Some(Ok::<(Pos, EntityView), Seq<char>>((es[0].0, es[0].1))));
        assert(scan_body(pieces, m) == scan_body(pieces.drop_first(), m1));
        assert(insert_all(m, es) == insert_all(m1, rest));
    }
}

/// Whitespace alone trims to nothing.
proof fn lemma_trim_all_space(s: Seq<char>)
    requires
        forall|i: int| 0 <= i < s.len() ==> #[trigger] is_space(s[i]),
    ensures
        trim(s).len() == 0,
    decreases s.len(),
{
    if s.len() > 0 {
        assert forall|i: int| 0 <= i < s.drop_first().len() implies #[trigger] is_space(s.drop_first()[i]) by {
            assert(s.drop_first()[i] == s[i + 1]);
        }
        lemma_trim_all_space(s.drop_first());
    }
}

/// Inserting tiles at distinct positions gives exactly those tiles over `m`.
proof fn lemma_insert_all(m: Map<Pos, EntityView>, es: Seq<(Pos, EntityView)>)
    requires
        forall|i: int, j: int| 0 <= i < j < es.len() ==> #[trigger] es[i].0 != #[trigger] es[j].0,
    ensures
        forall|q: Pos|
            #[trigger] insert_all(m, es).contains_key(q) <==> m.contains_key(q) || exists|i: int|
                0 <= i < es.len() && es[i].0 == q,
        forall|i: int| 0 <= i < es.len() ==> insert_all(m, es)[#[trigger] es[i].0] == es[i].1,
    decreases es.len(),
{
    if es.len() > 0 {
        let rest = es.drop_first();
        let m1 = m.insert(es[0].0, es[0].1);
        assert forall|i: int, j: int| 0 <= i < j < rest.len() implies #[trigger] rest[i].0 != #[trigger] rest[j].0 by {
            assert(rest[i] == es[i + 1]);
            assert(rest[j] == es[j + 1]);
        }
        lemma_insert_all(m1, rest);
        assert(insert_all(m, es) == insert_all(m1, rest));
        assert forall|q: Pos|
            #[trigger] insert_all(m, es).contains_key(q) <==> m.contains_key(q) || exists|i: int|
                0 <= i < es.len() && es[i].0 == q by {
            if exists|i: int| 0 <= i < rest.len() && rest[i].0 == q {
                let i = choose|i: int| 0 <= i < rest.len() && rest[i].0 == q;
                assert(es[i + 1].0 == q);
            }
            if exists|i: int| 0 <= i < es.len() && es[i].0 == q {
                let i = choose|i: int| 0 <= i < es.len() && es[i].0 == q;
                if i > 0 {
                    assert(rest[i - 1].0 == q);
                }
            }
        }
        assert forall|i: int| 0 <= i < es.len() implies insert_all(m, es)[#[trigger] es[i].0] == es[i].1 by {
            if i > 0 {
                assert(rest[i - 1] == es[i]);
            } else {
                assert forall|k: int| 0 <= k < rest.len() implies rest[k].0 != es[0].0 by {
                    assert(rest[k] == es[k + 1]);
                }
                lemma_insert_all_keeps(m1, rest, es[0].0);
            }
        }
    }
}

/// Inserting tiles elsewhere keeps what `m` holds at `q`.
proof fn lemma_insert_all_keeps(m: Map<Pos, EntityView>, es: Seq<(Pos, EntityView)>, q: Pos)
    requires
        forall|k: int| 0 <= k < es.len() ==> es[k].0 != q,
        m.contains_key(q),
    ensures
        insert_all(m, es).contains_key(q),
        insert_all(m, es)[q] == m[q],
    decreases es.len(),
{
    if es.len() > 0 {
        let rest = es.drop_first();
        assert forall|k: int| 0 <= k < rest.len() implies rest[k].0 != q by {
            assert(rest[k] == es[k + 1]);
        }
        lemma_insert_all_keeps(m.insert(es[0].0, es[0].1), rest, q);
    }
}

/// The two header items read back as the two sides.
proof fn lemma_header_items(size: Pos, plot: Pos)
    ensures
        scan_header(
            seq!["size"@ + seq![':'] + pos_text(size), "plot_size"@ + seq![':'] + pos_text(plot)],
            None,
            None,
        ) == Ok::<(Option<Pos>, Option<Pos>), Seq<char>>((Some(size), Some(plot))),
{
    reveal_strlit("size");
    reveal_strlit("plot_size");
    reveal_with_fuel(lacks, 12);
    reveal_with_fuel(scan_header, 3);
    let size_text = pos_text(size);
    let plot_text = pos_text(plot);
    lemma_pos_round_trip(size);
    lemma_pos_round_trip(plot);
    let item1 = "size"@ + seq![':'] + size_text;
    let item2 = "plot_size"@ + seq![':'] + plot_text;
    let items = seq![item1, item2];
    assert(lacks("size"@, ':'));
    assert(lacks("plot_size"@, ':'));
    lemma_lacks("size"@, ':');
    lemma_lacks("plot_size"@, ':');
    lemma_first_of_at(item1, ':', 4);
    assert(item1.subrange(0, 4) =~= "size"@);
    assert(item1.subrange(5, item1.len() as int) =~= size_text);
    assert(halves(item1, ':') == ("size"@, size_text));
    lemma_first_of_at(item2, ':', 9);
    assert(item2.subrange(0, 9) =~= "plot_size"@);
    assert(item2.subrange(10, item2.len() as int) =~= plot_text);
    assert(halves(item2, ':') == ("plot_size"@, plot_text));
    lemma_trim_padded(Seq::empty(), "size"@);
    lemma_trim_padded(Seq::empty(), "plot_size"@);
    assert(Seq::<char>::empty() + "size"@ =~= "size"@);
    assert(Seq::<char>::empty() + "plot_size"@ =~= "plot_size"@);
    assert(items[0] == item1);
    assert(items.drop_first() =~= seq![item2]);
    assert(items.drop_first().drop_first() =~= Seq::<Seq<char>>::empty());
    assert(scan_header(seq![item2], Some(size), None) == scan_header(Seq::empty(), Some(size), Some(plot)));
    assert(scan_header(items, None, None) == scan_header(seq![item2], Some(size), None));
}

/// Decoding the text that lists the tiles of `m` in any order, under a
/// header with sides in range, gives back those sides and exactly `m`,
/// provided every player name on the tiles is storable.
pub proof fn lemma_field_round_trip(
    size: Pos,
    plot: Pos,
    m: Map<Pos, EntityView>,
    es: Seq<(Pos, EntityView)>,
)
    requires
        dims_in_range(size, plot),
        lists_tiles(es, m),
        storable_tiles(m),
    ensures
        parse_field(header_text(size, plot) + entries_text(es)) == Ok::<
            (Pos, Pos, Map<Pos, EntityView>),
            Seq<char>,
        >((size, plot, m)),
{
    reveal_strlit("size:");
    reveal_strlit(" plot_size:");
    reveal_strlit("/");
    reveal_strlit("size");
    reveal_strlit("plot_size");
    reveal_with_fuel(lacks, 12);
    let size_text = pos_text(size);
    let plot_text = pos_text(plot);
    lemma_pos_round_trip(size);
    lemma_pos_round_trip(plot);
    let item1 = "size"@ + seq![':'] + size_text;
    let item2 = "plot_size"@ + seq![':'] + plot_text;
    let meta = item1 + seq![' '] + item2;
    let body = entries_text(es);
    let s = header_text(size, plot) + body;
    assert("size:"@ =~= "size"@ + seq![':']);
    assert(" plot_size:"@ =~= seq![' '] + "plot_size"@ + seq![':']);
    assert(s =~= meta + seq!['/'] + body);
    // the header holds no slash, no space inside its items, and one colon each
    assert(lacks("size"@, '/') && lacks("size"@, ' ') && lacks("size"@, ':'));
    assert(lacks("plot_size"@, '/') && lacks("plot_size"@, ' ') && lacks("plot_size"@, ':'));
    lemma_lacks("size"@, '/');
    lemma_lacks("size"@, ' ');
    lemma_lacks("size"@, ':');
    lemma_lacks("plot_size"@, '/');
    lemma_lacks("plot_size"@, ' ');
    lemma_lacks("plot_size"@, ':');
    assert forall|i: int| 0 <= i < meta.len() implies meta[i] != '/' by {
        if i < 4 {
            assert(meta[i] == "size"@[i]);
        } else if 4 < i < item1.len() {
            assert(meta[i] == size_text[i - 5]);
            assert(is_pos_char(size_text[i - 5]));
        } else if item1.len() + 1 <= i < item1.len() + 10 {
            assert(meta[i] == "plot_size"@[i - item1.len() - 1]);
        } else if i > item1.len() + 10 {
            assert(meta[i] == plot_text[i - item1.len() - 11]);
            assert(is_pos_char(plot_text[i - item1.len() - 11]));
        }
    }
    lemma_first_of_at(s, '/', meta.len() as int);
    assert(s.subrange(0, meta.len() as int) =~= meta);
    assert(s.subrange(meta.len() as int + 1, s.len() as int) =~= body);
    assert(halves(s, '/') == (meta, body));
    // the header's items
    assert forall|i: int| 0 <= i < item1.len() implies item1[i] != ' ' by {
        if i < 4 {
            assert(item1[i] == "size"@[i]);
        } else if i > 4 {
            assert(item1[i] == size_text[i - 5]);
            assert(is_pos_char(size_text[i - 5]));
        }
    }
    assert forall|i: int| 0 <= i < item2.len() implies item2[i] != ' ' by {
        if i < 9 {
            assert(item2[i] == "plot_size"@[i]);
        } else if i > 9 {
            assert(item2[i] == plot_text[i - 10]);
            assert(is_pos_char(plot_text[i - 10]));
        }
    }
    lemma_split_all_prefix(item1, item2, ' ');
    lemma_split_all_none(item2, ' ');
    let items = split_all(meta, ' ');
    assert(items =~= seq![item1, item2]);
    lemma_header_items(size, plot);
    // the body
    assert forall|i: int| 0 <= i < es.len() implies storable(#[trigger] es[i].1) by {
        assert(m.contains_key(es[i].0));
    }
    assert(Seq::<char>::empty() + body =~= body);
    lemma_split_body(Seq::empty(), es);
    lemma_scan_pieces(Seq::empty(), es, Map::empty());
    lemma_insert_all(Map::empty(), es);
    assert(insert_all(Map::empty(), es) =~= m);
}

} // verus!
