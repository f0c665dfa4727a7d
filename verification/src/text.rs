//! Character-level string operations with their specifications.
//!
//! Strings are specified through their view, the sequence of `char`s they
//! hold. Ordering is the lexicographic order on code points, which is the
//! order `String`'s `Ord` gives (it compares UTF-8 bytes, and UTF-8 keeps
//! code-point order).
use vstd::prelude::*;
use vstd::string::*;

verus! {

/// `a` and `b` agree on their first `k` characters.
pub open spec fn agree_upto(a: Seq<char>, b: Seq<char>, k: int) -> bool {
    &&& 0 <= k <= a.len()
    &&& k <= b.len()
    &&& forall|i: int| 0 <= i < k ==> a[i] == b[i]
}

/// Lexicographic "strictly less than" on character sequences.
pub open spec fn chars_lt(a: Seq<char>, b: Seq<char>) -> bool {
    exists|k: int|
        #![trigger agree_upto(a, b, k)]
        agree_upto(a, b, k) && ((k == a.len() && k < b.len()) || (k < a.len() && k < b.len() && a[k]
            < b[k]))
}

/// `p` is a prefix of `s`.
pub open spec fn is_prefix(p: Seq<char>, s: Seq<char>) -> bool {
    p.len() <= s.len() && s.subrange(0, p.len() as int) =~= p
}

/// `needle` occurs in `hay` at position `i`.
pub open spec fn occurs_at(hay: Seq<char>, needle: Seq<char>, i: int) -> bool {
    0 <= i && i + needle.len() <= hay.len() && hay.subrange(i, i + needle.len()) =~= needle
}

/// `needle` occurs somewhere in `hay` (the empty sequence occurs everywhere).
pub open spec fn contains_seq(hay: Seq<char>, needle: Seq<char>) -> bool {
    exists|i: int| occurs_at(hay, needle, i)
}

/// The Unicode `White_Space` property, the set `char::is_whitespace` tests.
pub open spec fn is_white_space(c: char) -> bool {
    let u = c as u32;
    ||| 0x9 <= u <= 0xD
    ||| u == 0x20
    ||| u == 0x85
    ||| u == 0xA0
    ||| u == 0x1680
    ||| 0x2000 <= u <= 0x200A
    ||| u == 0x2028
    ||| u == 0x2029
    ||| u == 0x202F
    ||| u == 0x205F
    ||| u == 0x3000
}

/// The characters of `s`, in order.
pub fn chars_of(s: &str) -> (v: Vec<char>)
    ensures
        v@ == s@,
{
    let mut v: Vec<char> = Vec::new();
    for c in it: s.chars()
        invariant
            v@ == it.seq().take(it.index() as int),
            it.seq() == s@,
    {
        v.push(c);
    }
    v
}

/// Whether `c` is Unicode white space.
pub fn is_whitespace(c: char) -> (b: bool)
    ensures
        b == is_white_space(c),
{
    let u = c as u32;
    (0x9 <= u && u <= 0xD) || u == 0x20 || u == 0x85 || u == 0xA0 || u == 0x1680 || (0x2000 <= u
        && u <= 0x200A) || u == 0x2028 || u == 0x2029 || u == 0x202F || u == 0x205F || u == 0x3000
}

/// Three-way comparison result.
#[derive(PartialEq, Eq, Structural, Clone, Copy, Debug)]
pub enum Order {
    Less,
    Equal,
    Greater,
}

/// Two sequences that agree up to a position where they differ, or where one
/// ends, are ordered by that position alone.
pub proof fn lemma_first_difference(a: Seq<char>, b: Seq<char>, k: int)
    requires
        agree_upto(a, b, k),
        k == a.len() || k == b.len() || a[k] != b[k],
    ensures
        chars_lt(a, b) <==> ((k == a.len() && k < b.len()) || (k < a.len() && k < b.len() && a[k]
            < b[k])),
        chars_lt(b, a) <==> ((k == b.len() && k < a.len()) || (k < a.len() && k < b.len() && b[k]
            < a[k])),
        a =~= b <==> (k == a.len() && k == b.len()),
{
    assert forall|j: int| #![trigger agree_upto(a, b, j)] agree_upto(a, b, j) implies j <= k by {
        if j > k {
            assert(a[k] == b[k]);
        }
    }
    assert forall|j: int| #![trigger agree_upto(b, a, j)] agree_upto(b, a, j) implies j <= k by {
        if j > k {
            assert(a[k] == b[k]);
        }
    }
    if chars_lt(a, b) {
        let j = choose|j: int|
            #![trigger agree_upto(a, b, j)]
            agree_upto(a, b, j) && ((j == a.len() && j < b.len()) || (j < a.len() && j < b.len()
                && a[j] < b[j]));
        assert(j <= k);
    }
    if chars_lt(b, a) {
        let j = choose|j: int|
            #![trigger agree_upto(b, a, j)]
            agree_upto(b, a, j) && ((j == b.len() && j < a.len()) || (j < a.len() && j < b.len()
                && b[j] < a[j]));
        assert(j <= k);
    }
    assert(agree_upto(b, a, k));
}

/// Lexicographic comparison of two strings.
pub fn compare_str(a: &str, b: &str) -> (o: Order)
    ensures
        o == Order::Less <==> chars_lt(a@, b@),
        o == Order::Equal <==> a@ == b@,
        o == Order::Greater <==> chars_lt(b@, a@),
{
    let va = chars_of(a);
    let vb = chars_of(b);
    let mut i: usize = 0;
    while i < va.len() && i < vb.len() && va[i] == vb[i]
        invariant
            va@ == a@,
            vb@ == b@,
            agree_upto(a@, b@, i as int),
        decreases va.len() - i,
    {
        i = i + 1;
    }
    proof {
        lemma_first_difference(a@, b@, i as int);
    }
    if i < va.len() && i < vb.len() {
        if va[i] < vb[i] {
            Order::Less
        } else {
            Order::Greater
        }
    } else if i == va.len() && i == vb.len() {
        Order::Equal
    } else if i == va.len() {
        Order::Less
    } else {
        Order::Greater
    }
}

/// Whether two strings hold the same characters.
pub fn str_eq(a: &str, b: &str) -> (r: bool)
    ensures
        r == (a@ == b@),
{
    match compare_str(a, b) {
        Order::Equal => true,
        _ => false,
    }
}

/// Whether `prefix` is a prefix of `s`.
pub fn starts_with(s: &str, prefix: &str) -> (r: bool)
    ensures
        r == is_prefix(prefix@, s@),
{
    let vs = chars_of(s);
    let vp = chars_of(prefix);
    if vp.len() > vs.len() {
        return false;
    }
    let mut i: usize = 0;
    while i < vp.len()
        invariant
            vs@ == s@,
            vp@ == prefix@,
            vp.len() <= vs.len(),
            i <= vp.len(),
            forall|j: int| 0 <= j < i ==> vs@[j] == vp@[j],
        decreases vp.len() - i,
    {
        if vs[i] != vp[i] {
            assert(s@.subrange(0, prefix@.len() as int)[i as int] != prefix@[i as int]);
            return false;
        }
        i = i + 1;
    }
    assert(s@.subrange(0, prefix@.len() as int) =~= prefix@);
    true
}

/// Whether `needle` matches `hay` at character position `at`.
fn matches_at(hay: &Vec<char>, needle: &Vec<char>, at: usize) -> (r: bool)
    requires
        at + needle.len() <= hay.len(),
    ensures
        r == occurs_at(hay@, needle@, at as int),
{
    let mut j: usize = 0;
    while j < needle.len()
        invariant
            at + needle.len() <= hay.len(),
            j <= needle.len(),
            forall|k: int| 0 <= k < j ==> hay@[at + k] == needle@[k],
        decreases needle.len() - j,
    {
        if hay[at + j] != needle[j] {
            assert(hay@.subrange(at as int, at + needle.len())[j as int] != needle@[j as int]);
            return false;
        }
        j = j + 1;
    }
    assert(hay@.subrange(at as int, at + needle.len()) =~= needle@);
    true
}

/// Whether `needle` occurs in `hay`.
pub fn contains_str(hay: &str, needle: &str) -> (r: bool)
    ensures
        r == contains_seq(hay@, needle@),
{
    let vh = chars_of(hay);
    let vn = chars_of(needle);
    if vn.len() > vh.len() {
        assert forall|i: int| !occurs_at(hay@, needle@, i) by {}
        return false;
    }
    let mut i: usize = 0;
    while i <= vh.len() - vn.len()
        invariant
            vh@ == hay@,
            vn@ == needle@,
            vn.len() <= vh.len(),
            i <= vh.len() - vn.len() + 1,
            forall|k: int| 0 <= k < i ==> !occurs_at(hay@, needle@, k),
        decreases vh.len() - vn.len() + 1 - i,
    {
        if matches_at(&vh, &vn, i) {
            return true;
        }
        i = i + 1;
    }
    assert forall|k: int| !occurs_at(hay@, needle@, k) by {
        if 0 <= k < i {
        }
    }
    false
}

} // verus!

verus! {

/// What `format!("{:?}", s)` gives for a string holding `s`: the string quoted
/// and escaped as Rust's `Debug` for `str` does.
pub uninterp spec fn debug_str(s: Seq<char>) -> Seq<char>;

/// Calls `<str as Debug>::fmt` through `format!`. The contract claims only
/// that the text written is a function of `s` (named `debug_str`); the
/// quoting and escaping rules are left unstated.
#[verifier::external_body]
pub(crate) fn debug_quoted(s: &str) -> (r: String)
    ensures
        r@ == debug_str(s@),
{
    format!("{:?}", s)
}

/// What `str::to_lowercase` gives for a string holding `s` (Unicode lowercase
/// mapping, character by character, with the final-sigma rule).
pub uninterp spec fn lowercase(s: Seq<char>) -> Seq<char>;

/// Every character of `s` is ASCII.
pub open spec fn ascii_text(s: Seq<char>) -> bool {
    forall|i: int| 0 <= i < s.len() ==> (#[trigger] s[i]) as u32 <= 0x7F
}

/// `c` with `A`-`Z` mapped to `a`-`z`.
pub open spec fn ascii_lower_char(c: char) -> char {
    if 'A' <= c && c <= 'Z' {
        ((c as u32) + 32) as char
    } else {
        c
    }
}

/// `c` with `a`-`z` mapped to `A`-`Z`.
pub open spec fn ascii_upper_char(c: char) -> char {
    if 'a' <= c && c <= 'z' {
        ((c as u32) - 32) as char
    } else {
        c
    }
}

/// `s` with `A`-`Z` mapped to `a`-`z`, every other character kept.
pub open spec fn ascii_lower(s: Seq<char>) -> Seq<char> {
    s.map_values(|c: char| ascii_lower_char(c))
}

/// `s` with `a`-`z` mapped to `A`-`Z`, every other character kept (what
/// `str::to_ascii_uppercase` gives).
pub open spec fn ascii_upper(s: Seq<char>) -> Seq<char> {
    s.map_values(|c: char| ascii_upper_char(c))
}

/// Calls `str::to_lowercase`. The contract claims that the result is a
/// function of `s` (named `lowercase`) and that on ASCII text it maps `A`-`Z`
/// to `a`-`z` and keeps every other character; the Unicode case mapping of
/// other characters is left unstated.
#[verifier::external_body]
pub(crate) fn to_lowercase(s: &str) -> (r: String)
    ensures
        r@ == lowercase(s@),
        ascii_text(s@) ==> r@ == ascii_lower(s@),
{
    s.to_lowercase()
}

/// A string holding `a` followed by `b`.
pub fn concat2(a: &str, b: &str) -> (r: String)
    ensures
        r@ == a@ + b@,
{
    let mut r = String::new();
    r.append(a);
    r.append(b);
    r
}

/// A string holding `a`, `b` and `c` in turn.
pub fn concat3(a: &str, b: &str, c: &str) -> (r: String)
    ensures
        r@ == a@ + b@ + c@,
{
    let mut r = String::new();
    r.append(a);
    r.append(b);
    r.append(c);
    r
}


// ---------------------------------------------------------------------------
// Words
// ---------------------------------------------------------------------------

/// The words of `s` from position `i` on, where `run` is the start of a word
/// that began before `i` and has not ended yet.
pub open spec fn words_after(s: Seq<char>, i: int, run: Option<int>) -> Seq<Seq<char>>
    decreases s.len() - i,
{
    if i < 0 || i >= s.len() {
        match run {
            Some(st) => seq![s.subrange(st, s.len() as int)],
            None => Seq::empty(),
        }
    } else if is_white_space(s[i]) {
        (match run {
            Some(st) => seq![s.subrange(st, i)],
            None => Seq::empty(),
        }) + words_after(s, i + 1, None)
    } else {
        words_after(
            s,
            i + 1,
            match run {
                Some(st) => Some(st),
                None => Some(i),
            },
        )
    }
}

/// The words of `s`: its maximal runs of non-white-space characters, in
/// order (what `str::split_whitespace` yields).
pub open spec fn words(s: Seq<char>) -> Seq<Seq<char>> {
    words_after(s, 0, None)
}

/// No printable ASCII character is white space: white space is the Unicode
/// White_Space set, whose ASCII members are tab, line feed, vertical tab,
/// form feed, carriage return and the space itself.
pub proof fn white_space_law(c: char)
    ensures
        0x21 <= c as u32 <= 0x7E ==> !is_white_space(c),
        c as u32 <= 0x7F ==> (is_white_space(c) <==> (0x9 <= c as u32 <= 0xD || c == ' ')),
        is_white_space(' '),
        !is_white_space('_'),
{
}

/// Inside a run of non-white-space characters the pending word just grows.
proof fn lemma_words_run(s: Seq<char>, i: int, j: int, run: Option<int>)
    requires
        0 <= i <= j <= s.len(),
        run is Some,
        forall|k: int| i <= k < j ==> !is_white_space(#[trigger] s[k]),
    ensures
        words_after(s, i, run) == words_after(s, j, run),
    decreases j - i,
{
    if i < j {
        lemma_words_run(s, i + 1, j, run);
    }
}

/// A word `s[i..j)` that ends at white space or at the end of `s` is the
/// next word read from `i`.
pub proof fn lemma_next_word(s: Seq<char>, i: int, j: int)
    requires
        0 <= i < j <= s.len(),
        forall|k: int| i <= k < j ==> !is_white_space(#[trigger] s[k]),
        j < s.len() ==> is_white_space(s[j]),
    ensures
        j == s.len() ==> words_after(s, i, None) == seq![s.subrange(i, j)],
        j < s.len() ==> words_after(s, i, None) == seq![s.subrange(i, j)] + words_after(s, j + 1, None),
{
    assert(!is_white_space(s[i]));
    lemma_words_run(s, i + 1, j, Some(i));
}

/// The optional start of a word, as an integer.
pub open spec fn run_start(run: Option<usize>) -> Option<int> {
    match run {
        Some(st) => Some(st as int),
        None => None,
    }
}

/// The character ranges of the words of `s`, in order.
pub fn word_spans(s: &str) -> (spans: Vec<(usize, usize)>)
    ensures
        spans@.len() == words(s@).len(),
        forall|k: int|
            0 <= k < spans@.len() ==> (#[trigger] spans@[k]).0 <= spans@[k].1 <= s@.len()
                && words(s@)[k] == s@.subrange(spans@[k].0 as int, spans@[k].1 as int),
{
    let cs = chars_of(s);
    let n = cs.len();
    let ghost q = s@;
    let ghost mut raw: Seq<Seq<char>> = Seq::empty();
    let mut spans: Vec<(usize, usize)> = Vec::new();
    let mut run: Option<usize> = None;
    let mut i: usize = 0;
    while i < n
        invariant
            cs@ == q,
            q == s@,
            n == q.len(),
            i <= n,
            match run {
                Some(st) => st < i,
                None => true,
            },
            words(q) == raw + words_after(q, i as int, run_start(run)),
            spans@.len() == raw.len(),
            forall|k: int|
                0 <= k < spans@.len() ==> (#[trigger] spans@[k]).0 <= spans@[k].1 <= q.len() && raw[k]
                    == q.subrange(spans@[k].0 as int, spans@[k].1 as int),
        decreases n - i,
    {
        let ghost before = words_after(q, i as int, run_start(run));
        if is_whitespace(cs[i]) {
            match run {
                Some(st) => {
                    proof {
                        assert(before == seq![q.subrange(st as int, i as int)] + words_after(
                            q,
                            i + 1,
                            None,
                        ));
                        assert(raw + before =~= raw.push(q.subrange(st as int, i as int))
                            + words_after(q, i + 1, None));
                        raw = raw.push(q.subrange(st as int, i as int));
                    }
                    spans.push((st, i));
                },
                None => {
                    assert(before =~= Seq::<Seq<char>>::empty() + words_after(q, i + 1, None));
                },
            }
            run = None;
        } else {
            if run.is_none() {
                run = Some(i);
            }
        }
        i = i + 1;
    }
    match run {
        Some(st) => {
            proof {
                assert(words_after(q, n as int, run_start(run)) == seq![q.subrange(st as int, n as int)]);
                assert(words(q) =~= raw.push(q.subrange(st as int, n as int)));
                raw = raw.push(q.subrange(st as int, n as int));
            }
            spans.push((st, n));
        },
        None => {
            assert(words(q) =~= raw);
        },
    }
    spans
}

/// Calls `String::push`. The contract claims that `c` is appended to the
/// string's characters and nothing else changes.
#[verifier::external_body]
pub(crate) fn push_char(s: &mut String, c: char)
    ensures
        final(s)@ == old(s)@.push(c),
{
    s.push(c);
}

/// The decimal digit for `d` (below 10).
pub open spec fn digit_char(d: nat) -> char {
    if d == 0 {
        '0'
    } else if d == 1 {
        '1'
    } else if d == 2 {
        '2'
    } else if d == 3 {
        '3'
    } else if d == 4 {
        '4'
    } else if d == 5 {
        '5'
    } else if d == 6 {
        '6'
    } else if d == 7 {
        '7'
    } else if d == 8 {
        '8'
    } else {
        '9'
    }
}

/// The decimal numeral of `n`, without leading zeros.
pub open spec fn decimal(n: nat) -> Seq<char>
    decreases n,
{
    if n < 10 {
        seq![digit_char(n)]
    } else {
        decimal(n / 10).push(digit_char(n % 10))
    }
}

/// Appends the decimal numeral of `n` to `out`.
pub fn push_decimal(out: &mut String, n: u64)
    ensures
        final(out)@ == old(out)@ + decimal(n as nat),
    decreases n,
{
    if n >= 10 {
        push_decimal(out, n / 10);
    }
    let d = n % 10;
    let c = if d == 0 {
        '0'
    } else if d == 1 {
        '1'
    } else if d == 2 {
        '2'
    } else if d == 3 {
        '3'
    } else if d == 4 {
        '4'
    } else if d == 5 {
        '5'
    } else if d == 6 {
        '6'
    } else if d == 7 {
        '7'
    } else if d == 8 {
        '8'
    } else {
        '9'
    };
    push_char(out, c);
}

/// The decimal numeral of `n`.
pub fn decimal_string(n: u64) -> (s: String)
    ensures
        s@ == decimal(n as nat),
{
    let mut s = String::new();
    push_decimal(&mut s, n);
    assert(s@ =~= decimal(n as nat));
    s
}

} // verus!
