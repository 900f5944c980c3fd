//! Character-level helpers shared by the textual decoders and encoders:
//! splitting at a separator, trimming whitespace, decimal integers, and
//! case folding.
use vstd::prelude::*;
use vstd::std_specs::iter::IteratorSpec;

verus! {

// ---------------------------------------------------------------------
// Trusted bridges to std
// ---------------------------------------------------------------------

/// What `str::to_lowercase` returns for a string with the given characters.
pub uninterp spec fn lower_of(s: Seq<char>) -> Seq<char>;

/// Every character is an ASCII lowercase letter.
pub open spec fn is_lower_word(s: Seq<char>) -> bool
    decreases s.len(),
{
    s.len() == 0 || ('a' <= s[0] && s[0] <= 'z' && is_lower_word(s.drop_first()))
}

/// A lowercase word holds no character outside `a..=z`.
pub proof fn lemma_lower_word(s: Seq<char>)
    requires
        is_lower_word(s),
    ensures
        forall|i: int| 0 <= i < s.len() ==> 'a' <= #[trigger] s[i] && s[i] <= 'z',
    decreases s.len(),
{
    if s.len() > 0 {
        lemma_lower_word(s.drop_first());
        assert forall|i: int| 0 <= i < s.len() implies 'a' <= #[trigger] s[i] && s[i] <= 'z' by {
            if i > 0 {
                assert(s[i] == s.drop_first()[i - 1]);
            }
        }
    }
}

/// The case-folded form of `s` that the decoders match keywords against: the
/// word itself when it is already lowercase ASCII, else what `to_lowercase` gives.
pub open spec fn folded(s: Seq<char>) -> Seq<char> {
    if is_lower_word(s) {
        s
    } else {
        lower_of(s)
    }
}

/// The characters of `s`, case-folded.
pub fn folded_chars(s: &[char]) -> (r: Vec<char>)
    ensures
        r@ == folded(s@),
{
    let st = string_of(s);
    let low = lowercase(st.as_str());
    chars_of(low.as_str())
}

/// Relies on `str::to_lowercase`: the result depends on the characters
/// alone, and a string of ASCII lowercase letters has no other lowercase form.
#[verifier::external_body]
pub fn lowercase(s: &str) -> (r: String)
    ensures
        r@ == lower_of(s@),
        is_lower_word(s@) ==> r@ == s@,
{
    s.to_lowercase()
}

/// The characters of `s`, in order.
pub fn chars_of(s: &str) -> (r: Vec<char>)
    ensures
        r@ == s@,
{
    broadcast use vstd::string::axiom_spec_iter;

    let mut v: Vec<char> = Vec::new();
    let ghost full = vstd::string::spec_iter(s).remaining();
    for c in it: s.chars()
        invariant
            it.seq() == full,
            full == s@,
            v@ == it.seq().take(it.index() as int),
    {
        v.push(c);
    }
    assert(v@ =~= s@);
    v
}

/// Relies on `Iterator::collect` into a `String`: the characters in order.
#[verifier::external_body]
pub fn string_of(v: &[char]) -> (r: String)
    ensures
        r@ == v@,
{
    v.iter().collect()
}

// ---------------------------------------------------------------------
// Splitting
// ---------------------------------------------------------------------

/// Index of the first `c` in `s` at or after `i`, or `s.len()` if there is none.
pub open spec fn first_from(s: Seq<char>, c: char, i: int) -> int
    decreases s.len() - i,
{
    if i >= s.len() {
        s.len() as int
    } else if i >= 0 && s[i] == c {
        i
    } else if i < 0 {
        first_from(s, c, 0)
    } else {
        first_from(s, c, i + 1)
    }
}

/// Index of the first `c` in `s`, or `s.len()` if `s` holds none.
pub open spec fn first_of(s: Seq<char>, c: char) -> int {
    first_from(s, c, 0)
}

/// `s` split at its first `c`: the part before, and the part after if `c` occurs.
pub open spec fn split_once(s: Seq<char>, c: char) -> (Seq<char>, Option<Seq<char>>) {
    let i = first_of(s, c);
    if i < s.len() {
        (s.subrange(0, i), Some(s.subrange(i + 1, s.len() as int)))
    } else {
        (s, None)
    }
}

/// `s` split at its first `c`, with an empty second part if `c` does not occur.
pub open spec fn halves(s: Seq<char>, c: char) -> (Seq<char>, Seq<char>) {
    let (a, b) = split_once(s, c);
    match b {
        Some(b) => (a, b),
        None => (a, Seq::empty()),
    }
}

/// Every piece of `s` between occurrences of `c`, as `str::split` yields them.
pub open spec fn split_all(s: Seq<char>, c: char) -> Seq<Seq<char>>
    decreases s.len(),
{
    let i = first_of(s, c);
    if 0 <= i < s.len() {
        seq![s.subrange(0, i)] + split_all(s.subrange(i + 1, s.len() as int), c)
    } else {
        seq![s]
    }
}

/// The first occurrence at or after `i` is where `first_from` says it is.
pub proof fn lemma_first_from(s: Seq<char>, c: char, i: int)
    requires
        0 <= i <= s.len(),
    ensures
        i <= first_from(s, c, i) <= s.len(),
        first_from(s, c, i) < s.len() ==> s[first_from(s, c, i)] == c,
        forall|j: int| i <= j < first_from(s, c, i) ==> s[j] != c,
    decreases s.len() - i,
{
    if i < s.len() && s[i] != c {
        lemma_first_from(s, c, i + 1);
    }
}

/// The first occurrence is where `first_of` says it is.
pub proof fn lemma_first_of(s: Seq<char>, c: char)
    ensures
        0 <= first_of(s, c) <= s.len(),
        first_of(s, c) < s.len() ==> s[first_of(s, c)] == c,
        forall|j: int| 0 <= j < first_of(s, c) ==> s[j] != c,
{
    lemma_first_from(s, c, 0);
}

/// A position holding `c` with no `c` before it is the first occurrence.
pub proof fn lemma_first_of_at(s: Seq<char>, c: char, k: int)
    requires
        0 <= k <= s.len(),
        k < s.len() ==> s[k] == c,
        forall|j: int| 0 <= j < k ==> s[j] != c,
    ensures
        first_of(s, c) == k,
{
    lemma_first_of(s, c);
}

/// Index of the first `c` in `v`, or its length.
pub fn find_char(v: &[char], c: char) -> (r: usize)
    ensures
        r == first_of(v@, c),
{
    let mut i: usize = 0;
    while i < v.len() && v[i] != c
        invariant
            i <= v@.len(),
            forall|j: int| 0 <= j < i ==> v@[j] != c,
        decreases v.len() - i,
    {
        i = i + 1;
    }
    proof {
        lemma_first_of_at(v@, c, i as int);
    }
    i
}

/// The characters of `v` from `lo` up to `hi`.
pub fn slice_chars(v: &[char], lo: usize, hi: usize) -> (r: Vec<char>)
    requires
        lo <= hi <= v@.len(),
    ensures
        r@ == v@.subrange(lo as int, hi as int),
{
    let mut r: Vec<char> = Vec::new();
    let mut i = lo;
    while i < hi
        invariant
            lo <= i <= hi <= v@.len(),
            r@ == v@.subrange(lo as int, i as int),
        decreases hi - i,
    {
        r.push(v[i]);
        i = i + 1;
    }
    r
}

/// `v` split at its first `c`.
pub fn split_once_chars(v: &[char], c: char) -> (r: (Vec<char>, Option<Vec<char>>))
    ensures
        r.0@ == split_once(v@, c).0,
        r.1 is Some <==> split_once(v@, c).1 is Some,
        r.1 is Some ==> r.1->0@ == split_once(v@, c).1->0,
{
    let i = find_char(v, c);
    if i < v.len() {
        (slice_chars(v, 0, i), Some(slice_chars(v, i + 1, v.len())))
    } else {
        (slice_chars(v, 0, v.len()), None)
    }
}

/// `v` split at its first `c`, the second part empty if `c` does not occur.
pub fn halves_chars(v: &[char], c: char) -> (r: (Vec<char>, Vec<char>))
    ensures
        r.0@ == halves(v@, c).0,
        r.1@ == halves(v@, c).1,
{
    let (a, b) = split_once_chars(v, c);
    match b {
        Some(b) => (a, b),
        None => (a, Vec::new()),
    }
}

/// Every piece of `v` between occurrences of `c`.
pub fn split_all_chars(v: &[char], c: char) -> (r: Vec<Vec<char>>)
    ensures
        r@.len() == split_all(v@, c).len(),
        forall|k: int| 0 <= k < r@.len() ==> #[trigger] r@[k]@ == split_all(v@, c)[k],
{
    let ghost mut done: Seq<Seq<char>> = Seq::empty();
    let mut pieces: Vec<Vec<char>> = Vec::new();
    let mut rest = slice_chars(v, 0, v.len());
    let mut i = find_char(rest.as_slice(), c);
    assert(v@.subrange(0, v@.len() as int) =~= v@);
    assert(split_all(v@, c) =~= done + split_all(rest@, c));
    while i < rest.len()
        invariant
            i == first_of(rest@, c),
            split_all(v@, c) == done + split_all(rest@, c),
            pieces@.len() == done.len(),
            forall|k: int| 0 <= k < done.len() ==> #[trigger] pieces@[k]@ == done[k],
        decreases rest@.len(),
    {
        proof {
            lemma_first_of(rest@, c);
        }
        let head = slice_chars(rest.as_slice(), 0, i);
        let tail = slice_chars(rest.as_slice(), i + 1, rest.len());
        proof {
            assert(split_all(rest@, c) == seq![head@] + split_all(tail@, c));
            assert(done.push(head@) + split_all(tail@, c) =~= done + (seq![head@] + split_all(
                tail@,
                c,
            )));
            done = done.push(head@);
        }
        pieces.push(head);
        rest = tail;
        i = find_char(rest.as_slice(), c);
    }
    proof {
        assert(split_all(rest@, c) == seq![rest@]);
        assert(done.push(rest@) =~= done + seq![rest@]);
        done = done.push(rest@);
    }
    pieces.push(rest);
    pieces
}

// ---------------------------------------------------------------------
// Comparing and building
// ---------------------------------------------------------------------

/// Whether two character sequences are equal.
pub fn chars_eq(a: &[char], b: &[char]) -> (r: bool)
    ensures
        r == (a@ == b@),
{
    if a.len() != b.len() {
        return false;
    }
    let mut i: usize = 0;
    while i < a.len()
        invariant
            a@.len() == b@.len(),
            i <= a@.len(),
            forall|j: int| 0 <= j < i ==> a@[j] == b@[j],
        decreases a.len() - i,
    {
        if a[i] != b[i] {
            return false;
        }
        i = i + 1;
    }
    assert(a@ =~= b@);
    true
}

/// Whether `a` holds exactly the characters of `w`.
pub fn is_word(a: &[char], w: &str) -> (r: bool)
    ensures
        r == (a@ == w@),
{
    let wc = chars_of(w);
    chars_eq(a, wc.as_slice())
}

/// Appends the characters of `s` to `out`.
pub fn push_str(out: &mut Vec<char>, s: &str)
    ensures
        final(out)@ == old(out)@ + s@,
{
    let sc = chars_of(s);
    push_chars(out, sc.as_slice());
}

/// Appends the characters of `s` to `out`.
pub fn push_chars(out: &mut Vec<char>, s: &[char])
    ensures
        final(out)@ == old(out)@ + s@,
{
    let mut i: usize = 0;
    while i < s.len()
        invariant
            i <= s@.len(),
            out@ == old(out)@ + s@.subrange(0, i as int),
        decreases s.len() - i,
    {
        out.push(s[i]);
        i = i + 1;
        assert(out@ =~= old(out)@ + s@.subrange(0, i as int));
    }
    assert(s@.subrange(0, s@.len() as int) =~= s@);
}

// ---------------------------------------------------------------------
// Whitespace
// ---------------------------------------------------------------------

/// The characters that `char::is_whitespace` accepts (Unicode `White_Space`).
pub open spec fn is_space(c: char) -> bool {
    ('\t' <= c && c <= '\r') || c == ' ' || c == '\u{85}' || c == '\u{a0}' || c == '\u{1680}' || (
    '\u{2000}' <= c && c <= '\u{200a}') || c == '\u{2028}' || c == '\u{2029}' || c == '\u{202f}'
        || c == '\u{205f}' || c == '\u{3000}'
}

/// Whether `c` is whitespace.
pub fn is_space_char(c: char) -> (r: bool)
    ensures
        r == is_space(c),
{
    ('\t' <= c && c <= '\r') || c == ' ' || c == '\u{85}' || c == '\u{a0}' || c == '\u{1680}' || (
    '\u{2000}' <= c && c <= '\u{200a}') || c == '\u{2028}' || c == '\u{2029}' || c == '\u{202f}'
        || c == '\u{205f}' || c == '\u{3000}'
}

/// `s` without its leading whitespace.
pub open spec fn trim_start(s: Seq<char>) -> Seq<char>
    decreases s.len(),
{
    if s.len() > 0 && is_space(s[0]) {
        trim_start(s.drop_first())
    } else {
        s
    }
}

/// `s` without its trailing whitespace.
pub open spec fn trim_end(s: Seq<char>) -> Seq<char>
    decreases s.len(),
{
    if s.len() > 0 && is_space(s.last()) {
        trim_end(s.drop_last())
    } else {
        s
    }
}

/// `s` without leading and trailing whitespace, as `str::trim` gives it.
pub open spec fn trim(s: Seq<char>) -> Seq<char> {
    trim_end(trim_start(s))
}

/// `v` without leading and trailing whitespace.
pub fn trim_chars(v: &[char]) -> (r: Vec<char>)
    ensures
        r@ == trim(v@),
{
    let mut lo: usize = 0;
    assert(v@.subrange(0, v@.len() as int) =~= v@);
    while lo < v.len() && is_space_char(v[lo])
        invariant
            lo <= v@.len(),
            trim_start(v@) == trim_start(v@.subrange(lo as int, v@.len() as int)),
        decreases v.len() - lo,
    {
        assert(v@.subrange(lo as int, v@.len() as int).drop_first() =~= v@.subrange(
            lo + 1,
            v@.len() as int,
        ));
        lo = lo + 1;
    }
    let mut hi: usize = v.len();
    while hi > lo && is_space_char(v[hi - 1])
        invariant
            lo <= hi <= v@.len(),
            trim_start(v@) == v@.subrange(lo as int, v@.len() as int),
            trim(v@) == trim_end(v@.subrange(lo as int, hi as int)),
        decreases hi,
    {
        assert(v@.subrange(lo as int, hi as int).drop_last() =~= v@.subrange(
            lo as int,
            hi - 1,
        ));
        hi = hi - 1;
    }
    slice_chars(v, lo, hi)
}

// ---------------------------------------------------------------------
// Decimal integers
// ---------------------------------------------------------------------

/// `c` is a decimal digit.
pub open spec fn is_digit(c: char) -> bool {
    '0' <= c && c <= '9'
}

/// The value of the decimal digit `c`.
pub open spec fn digit_value(c: char) -> int {
    c as int - '0' as int
}

/// The message of an integer decoder that met no character at all.
pub open spec fn empty_int_msg() -> Seq<char> {
    "cannot parse integer from empty string"@
}

/// The message of an integer decoder that met a character other than a digit.
pub open spec fn invalid_digit_msg() -> Seq<char> {
    "invalid digit found in string"@
}

/// The message of an integer decoder whose value grew past `i32::MAX`.
pub open spec fn too_large_msg() -> Seq<char> {
    "number too large to fit in target type"@
}

/// The message of an integer decoder whose value fell below `i32::MIN`.
pub open spec fn too_small_msg() -> Seq<char> {
    "number too small to fit in target type"@
}

/// Reads the digits `ds` left to right onto `acc`, stopping at the first
/// character that is not a digit or at the first step that leaves `i32`.
pub open spec fn scan_int(ds: Seq<char>, acc: int, neg: bool) -> Result<int, Seq<char>>
    decreases ds.len(),
{
    if ds.len() == 0 {
        Ok(acc)
    } else if !is_digit(ds[0]) {
        Err(invalid_digit_msg())
    } else {
        let next = if neg {
            acc * 10 - digit_value(ds[0])
        } else {
            acc * 10 + digit_value(ds[0])
        };
        if next > i32::MAX {
            Err(too_large_msg())
        } else if next < i32::MIN {
            Err(too_small_msg())
        } else {
            scan_int(ds.drop_first(), next, neg)
        }
    }
}

/// The `i32` written in `s` (an optional sign, then decimal digits), or the
/// message of the first problem, as `i32::from_str` reports them.
pub open spec fn parse_int(s: Seq<char>) -> Result<int, Seq<char>> {
    if s.len() == 0 {
        Err(empty_int_msg())
    } else if (s[0] == '+' || s[0] == '-') && s.len() == 1 {
        Err(invalid_digit_msg())
    } else if s[0] == '+' {
        scan_int(s.drop_first(), 0, false)
    } else if s[0] == '-' {
        scan_int(s.drop_first(), 0, true)
    } else {
        scan_int(s, 0, false)
    }
}

/// A string with the characters of the literal `s`.
pub fn owned(s: &str) -> (r: String)
    ensures
        r@ == s@,
{
    s.to_owned()
}

/// Decodes a decimal `i32`.
pub fn parse_i32(v: &[char]) -> (r: Result<i32, String>)
    ensures
        match r {
            Ok(n) => parse_int(v@) == Ok::<int, Seq<char>>(n as int),
            Err(e) => parse_int(v@) == Err::<int, Seq<char>>(e@),
        },
{
    if v.len() == 0 {
        return Err(owned("cannot parse integer from empty string"));
    }
    if (v[0] == '+' || v[0] == '-') && v.len() == 1 {
        return Err(owned("invalid digit found in string"));
    }
    let neg = v[0] == '-';
    let start: usize = if v[0] == '+' || v[0] == '-' {
        1
    } else {
        0
    };
    assert(v@.subrange(start as int, v@.len() as int) =~= if start == 1 {
        v@.drop_first()
    } else {
        v@
    });
    let mut acc: i32 = 0;
    let mut i: usize = start;
    while i < v.len()
        invariant
            start <= i <= v@.len(),
            parse_int(v@) == scan_int(v@.subrange(i as int, v@.len() as int), acc as int, neg),
        decreases v.len() - i,
    {
        let c = v[i];
        assert(v@.subrange(i as int, v@.len() as int)[0] == c);
        assert(v@.subrange(i as int, v@.len() as int).drop_first() =~= v@.subrange(
            i + 1,
            v@.len() as int,
        ));
        if !('0' <= c && c <= '9') {
            return Err(owned("invalid digit found in string"));
        }
        let d: i64 = (c as u32 - '0' as u32) as i64;
        let next: i64 = if neg {
            acc as i64 * 10 - d
        } else {
            acc as i64 * 10 + d
        };
        if next > i32::MAX as i64 {
            return Err(owned("number too large to fit in target type"));
        }
        if next < i32::MIN as i64 {
            return Err(owned("number too small to fit in target type"));
        }
        acc = next as i32;
        i = i + 1;
    }
    Ok(acc)
}

/// The decimal digit character for `d`.
pub open spec fn digit_char(d: int) -> char {
    if d == 0 {
        '0'
    } else if d == 1 {
        '1'
    } else if d == 2 {
        '2'
    } else if d == 3 {
        '3'
    } else if d == 4 {
        '4'
    } else if d == 5 {
        '5'
    } else if d == 6 {
        '6'
    } else if d == 7 {
        '7'
    } else if d == 8 {
        '8'
    } else {
        '9'
    }
}

/// The decimal digits of `n`, most significant first.
pub open spec fn nat_text(n: nat) -> Seq<char>
    decreases n,
{
    if n < 10 {
        seq![digit_char(n as int)]
    } else {
        nat_text(n / 10).push(digit_char((n % 10) as int))
    }
}

/// `v` in decimal, with a leading `-` when negative.
pub open spec fn int_text(v: int) -> Seq<char> {
    if v < 0 {
        seq!['-'] + nat_text((-v) as nat)
    } else {
        nat_text(v as nat)
    }
}

fn digit_of(d: u64) -> (r: char)
    requires
        d < 10,
    ensures
        r == digit_char(d as int),
{
    if d == 0 {
        '0'
    } else if d == 1 {
        '1'
    } else if d == 2 {
        '2'
    } else if d == 3 {
        '3'
    } else if d == 4 {
        '4'
    } else if d == 5 {
        '5'
    } else if d == 6 {
        '6'
    } else if d == 7 {
        '7'
    } else if d == 8 {
        '8'
    } else {
        '9'
    }
}

/// Appends the decimal digits of `n`.
pub fn push_nat(out: &mut Vec<char>, n: u64)
    ensures
        final(out)@ == old(out)@ + nat_text(n as nat),
    decreases n,
{
    if n >= 10 {
        push_nat(out, n / 10);
    }
    out.push(digit_of(n % 10));
    assert(out@ =~= old(out)@ + nat_text(n as nat));
}

/// Appends `v` in decimal.
pub fn push_int(out: &mut Vec<char>, v: i32)
    ensures
        final(out)@ == old(out)@ + int_text(v as int),
{
    if v < 0 {
        out.push('-');
        let m: i64 = -(v as i64);
        push_nat(out, m as u64);
        assert(out@ =~= old(out)@ + int_text(v as int));
    } else {
        push_nat(out, v as u64);
    }
}

// ---------------------------------------------------------------------
// Decimal round trip
// ---------------------------------------------------------------------

/// `c` is a decimal digit or a minus sign.
pub open spec fn is_number_char(c: char) -> bool {
    is_digit(c) || c == '-'
}

proof fn lemma_digit_char(d: int)
    requires
        0 <= d < 10,
    ensures
        is_digit(digit_char(d)),
        digit_value(digit_char(d)) == d,
{
}

/// Scanning one more digit continues from where the shorter scan ended.
proof fn lemma_scan_push(s: Seq<char>, c: char, acc: int, neg: bool, v: int)
    requires
        scan_int(s, acc, neg) == Ok::<int, Seq<char>>(v),
    ensures
        scan_int(s.push(c), acc, neg) == scan_int(seq![c], v, neg),
    decreases s.len(),
{
    if s.len() > 0 {
        let next = if neg {
            acc * 10 - digit_value(s[0])
        } else {
            acc * 10 + digit_value(s[0])
        };
        assert(s.push(c).drop_first() =~= s.drop_first().push(c));
        assert(s.push(c)[0] == s[0]);
        lemma_scan_push(s.drop_first(), c, next, neg, v);
    } else {
        assert(s.push(c) =~= seq![c]);
    }
}

/// The digits of `n` are digits, and reading them back gives `n` (or `-n`).
pub proof fn lemma_nat_text(n: nat, neg: bool)
    requires
        neg ==> n <= 0x8000_0000,
        !neg ==> n <= 0x7fff_ffff,
    ensures
        forall|i: int| 0 <= i < nat_text(n).len() ==> #[trigger] is_digit(nat_text(n)[i]),
        nat_text(n).len() >= 1,
        scan_int(nat_text(n), 0, neg) == Ok::<int, Seq<char>>(if neg {
            -n
        } else {
            n as int
        }),
    decreases n,
{
    if n < 10 {
        lemma_digit_char(n as int);
        reveal_with_fuel(scan_int, 2);
        assert(seq![digit_char(n as int)].drop_first() =~= Seq::<char>::empty());
    } else {
        lemma_nat_text(n / 10, neg);
        let prefix = nat_text(n / 10);
        let d = (n % 10) as int;
        lemma_digit_char(d);
        let v = if neg {
            -((n / 10) as int)
        } else {
            (n / 10) as int
        };
        lemma_scan_push(prefix, digit_char(d), 0, neg, v);
        reveal_with_fuel(scan_int, 2);
        assert(seq![digit_char(d)].drop_first() =~= Seq::<char>::empty());
        assert(nat_text(n) == prefix.push(digit_char(d)));
        assert forall|i: int| 0 <= i < nat_text(n).len() implies #[trigger] is_digit(nat_text(n)[i]) by {
            if i < prefix.len() {
                assert(nat_text(n)[i] == prefix[i]);
            }
        }
    }
}

/// The decimal text of an `i32` holds only digits and minus signs, starts
/// with neither a space nor a plus sign, and reads back as the same number.
pub proof fn lemma_int_round_trip(v: int)
    requires
        i32::MIN <= v <= i32::MAX,
    ensures
        parse_int(int_text(v)) == Ok::<int, Seq<char>>(v),
        forall|i: int| 0 <= i < int_text(v).len() ==> #[trigger] is_number_char(int_text(v)[i]),
        int_text(v).len() >= 1,
{
    if v < 0 {
        lemma_nat_text((-v) as nat, true);
        let t = int_text(v);
        assert(t.drop_first() =~= nat_text((-v) as nat));
        assert forall|i: int| 0 <= i < t.len() implies #[trigger] is_number_char(t[i]) by {
            if i > 0 {
                assert(t[i] == nat_text((-v) as nat)[i - 1]);
            }
        }
    } else {
        lemma_nat_text(v as nat, false);
        assert forall|i: int| 0 <= i < int_text(v).len() implies #[trigger] is_number_char(int_text(v)[i]) by {
            assert(is_digit(nat_text(v as nat)[i]));
        }
    }
}

/// Splitting `a`, `c`, `b` at `c`, where `a` holds no `c`, gives `a` and then
/// the pieces of `b`.
pub proof fn lemma_split_all_prefix(a: Seq<char>, b: Seq<char>, c: char)
    requires
        forall|i: int| 0 <= i < a.len() ==> a[i] != c,
    ensures
        split_all(a + seq![c] + b, c) == seq![a] + split_all(b, c),
{
    let s = a + seq![c] + b;
    lemma_first_of_at(s, c, a.len() as int);
    assert(s.subrange(0, a.len() as int) =~= a);
    assert(s.subrange(a.len() as int + 1, s.len() as int) =~= b);
}

/// Splitting a sequence without `c` at `c` gives it whole.
pub proof fn lemma_split_all_none(a: Seq<char>, c: char)
    requires
        forall|i: int| 0 <= i < a.len() ==> a[i] != c,
    ensures
        split_all(a, c) == seq![a],
{
    lemma_first_of_at(a, c, a.len() as int);
}

/// A sequence that neither starts nor ends with whitespace is its own trim,
/// also behind leading whitespace.
pub proof fn lemma_trim_padded(pad: Seq<char>, a: Seq<char>)
    requires
        a.len() >= 1,
        !is_space(a[0]),
        !is_space(a.last()),
        forall|i: int| 0 <= i < pad.len() ==> #[trigger] is_space(pad[i]),
    ensures
        trim(pad + a) == a,
    decreases pad.len(),
{
    if pad.len() > 0 {
        assert((pad + a).drop_first() =~= pad.drop_first() + a);
        lemma_trim_padded(pad.drop_first(), a);
    } else {
        assert(pad + a =~= a);
    }
}

} // verus!
