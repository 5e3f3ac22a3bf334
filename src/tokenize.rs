use vstd::prelude::*;

verus! {

/// What `str::trim` leaves of a text: the text without its leading and
/// trailing whitespace.
pub uninterp spec fn trimmed(s: Seq<char>) -> Seq<char>;

/// The pending token `cur` as a list of at most one token.
pub open spec fn flush(cur: Seq<char>) -> Seq<Seq<char>> {
    if cur.len() == 0 {
        Seq::empty()
    } else {
        seq![cur]
    }
}

/// The non-empty runs of `s` between delimiters of `d`, the first of them
/// continuing the pending token `cur`.
pub open spec fn pieces(s: Seq<char>, d: Seq<char>, cur: Seq<char>) -> Seq<Seq<char>>
    decreases s.len(),
{
    if s.len() == 0 {
        flush(cur)
    } else if d.contains(s[0]) {
        flush(cur) + pieces(s.drop_first(), d, Seq::empty())
    } else {
        pieces(s.drop_first(), d, cur.push(s[0]))
    }
}

/// The tokens of a line: the non-empty runs of the trimmed line that hold no
/// delimiter.
pub open spec fn tokens_of(s: Seq<char>, d: Seq<char>) -> Seq<Seq<char>> {
    pieces(trimmed(s), d, Seq::empty())
}

/// Relies on `str::trim`, which drops leading and trailing whitespace.
#[verifier::external_body]
fn trim_str(s: &str) -> (r: &str)
    ensures
        r@ == trimmed(s@),
{
    s.trim()
}

/// Relies on `str::chars`, which yields the characters of a text in order.
#[verifier::external_body]
pub(crate) fn chars_of(s: &str) -> (r: Vec<char>)
    ensures
        r@ == s@,
{
    s.chars().collect()
}

/// Relies on `String`'s `FromIterator<char>`, which joins the characters in
/// order.
#[verifier::external_body]
fn string_of(v: &Vec<char>) -> (r: String)
    ensures
        r@ == v@,
{
    v.iter().collect()
}

/// Whether `c` is one of the delimiters.
pub fn is_delimiter(c: char, delimiters: &[char]) -> (r: bool)
    ensures
        r == delimiters@.contains(c),
{
    let mut i: usize = 0;
    while i < delimiters.len()
        invariant
            i <= delimiters@.len(),
            forall|k: int| 0 <= k < i ==> delimiters@[k] != c,
        decreases delimiters.len() - i,
    {
        if delimiters[i] == c {
            return true;
        }
        i = i + 1;
    }
    false
}

/// Splits a line into its tokens: the line is trimmed, cut at every
/// delimiter, and the empty fragments are dropped.
pub fn tokenize(input: &str, delimiters: &[char]) -> (r: Vec<String>)
    ensures
        r@.map_values(|t: String| t@) == tokens_of(input@, delimiters@),
{
    let chars = chars_of(trim_str(input));
    let ghost s = chars@;
    let ghost d = delimiters@;
    let n = chars.len();
    let mut out: Vec<String> = Vec::new();
    let mut cur: Vec<char> = Vec::new();
    let mut i: usize = 0;
    assert(s.subrange(0, n as int) =~= s);
    assert(cur@ =~= Seq::<char>::empty());
    assert(out@.map_values(|t: String| t@) + pieces(s, d, cur@) =~= pieces(s, d, cur@));
    while i < n
        invariant
            n == chars@.len(),
            s == chars@,
            d == delimiters@,
            i <= n,
            out@.map_values(|t: String| t@) + pieces(s.subrange(i as int, n as int), d, cur@)
                == pieces(s, d, Seq::empty()),
        decreases n - i,
    {
        let ghost rest = s.subrange(i as int, n as int);
        let ghost before = out@.map_values(|t: String| t@);
        assert(rest.drop_first() =~= s.subrange(i + 1, n as int));
        assert(rest[0] == s[i as int]);
        let c = chars[i];
        if is_delimiter(c, delimiters) {
            if cur.len() > 0 {
                let t = string_of(&cur);
                out.push(t);
                proof {
                    assert(out@.map_values(|t: String| t@) =~= before + flush(cur@));
                }
            } else {
                assert(out@.map_values(|t: String| t@) =~= before + flush(cur@));
            }
            cur = Vec::new();
            assert(cur@ =~= Seq::<char>::empty());
        } else {
            cur.push(c);
        }
        i = i + 1;
    }
    let ghost before = out@.map_values(|t: String| t@);
    assert(s.subrange(n as int, n as int) =~= Seq::<char>::empty());
    if cur.len() > 0 {
        let t = string_of(&cur);
        out.push(t);
        assert(out@.map_values(|t: String| t@) =~= before + flush(cur@));
    } else {
        assert(before + flush(cur@) =~= before);
    }
    out
}

} // verus!
