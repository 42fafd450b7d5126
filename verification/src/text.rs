//! Character-level helpers for text that the library builds or splits.

use vstd::prelude::*;

verus! {

/// The characters of `s`, in order.
pub(crate) fn chars_of(s: &str) -> (chars: Vec<char>)
    ensures
        chars@ == s@,
{
    let n = s.unicode_len();
    let mut chars: Vec<char> = Vec::new();
    let mut i: usize = 0;
    while i < n
        invariant
            n == s@.len(),
            i <= n,
            chars@ == s@.take(i as int),
        decreases n - i,
    {
        chars.push(s.get_char(i));
        i = i + 1;
        assert(chars@ =~= s@.take(i as int));
    }
    assert(s@.take(n as int) =~= s@);
    chars
}

/// The string made of `chars`, in order.
///
/// Calls `String::from_iter` on the characters; std documents that the
/// result holds exactly those characters, which is what the contract states.
#[verifier::external_body]
pub(crate) fn string_from_chars(chars: &[char]) -> (s: String)
    ensures
        s@ == chars@,
{
    String::from_iter(chars.iter())
}

/// `s` cut at every occurrence of `sep`: the pieces between separators, in
/// order, including empty ones. There is always one piece more than there are
/// separators.
pub open spec fn split_on(s: Seq<char>, sep: char) -> Seq<Seq<char>>
    decreases s.len(),
{
    if s.len() == 0 {
        seq![Seq::empty()]
    } else {
        let init = split_on(s.drop_last(), sep);
        if s.last() == sep {
            init.push(Seq::empty())
        } else {
            init.update(init.len() - 1, init.last().push(s.last()))
        }
    }
}

pub proof fn lemma_split_on_nonempty(s: Seq<char>, sep: char)
    ensures
        split_on(s, sep).len() >= 1,
    decreases s.len(),
{
    if s.len() > 0 {
        lemma_split_on_nonempty(s.drop_last(), sep);
    }
}

/// Cuts `s` at every `sep`.
pub fn split_string(s: &str, sep: char) -> (pieces: Vec<String>)
    ensures
        pieces@.map_values(|p: String| p@) == split_on(s@, sep),
{
    let chars = chars_of(s);
    let mut pieces: Vec<String> = Vec::new();
    let mut current: Vec<char> = Vec::new();
    let mut i: usize = 0;
    while i < chars.len()
        invariant
            i <= chars@.len(),
            chars@ == s@,
            pieces@.map_values(|p: String| p@).push(current@) == split_on(chars@.take(i as int), sep),
        decreases chars@.len() - i,
    {
        let c = chars[i];
        let ghost before = chars@.take(i as int);
        proof {
            lemma_split_on_nonempty(before, sep);
            assert(chars@.take(i + 1).drop_last() =~= before);
        }
        if c == sep {
            let piece = string_from_chars(current.as_slice());
            pieces.push(piece);
            current = Vec::new();
            proof {
                assert(pieces@.map_values(|p: String| p@).push(current@) =~= split_on(
                    chars@.take(i + 1),
                    sep,
                ));
            }
        } else {
            current.push(c);
            proof {
                assert(pieces@.map_values(|p: String| p@).push(current@) =~= split_on(
                    chars@.take(i + 1),
                    sep,
                ));
            }
        }
        i = i + 1;
    }
    let last = string_from_chars(current.as_slice());
    pieces.push(last);
    proof {
        assert(chars@.take(i as int) =~= s@);
        assert(pieces@.map_values(|p: String| p@) =~= split_on(s@, sep));
    }
    pieces
}

/// Whether two strings hold the same characters.
pub fn str_eq(a: &str, b: &str) -> (same: bool)
    ensures
        same == (a@ == b@),
{
    let ac = chars_of(a);
    let bc = chars_of(b);
    if ac.len() != bc.len() {
        return false;
    }
    let mut i: usize = 0;
    while i < ac.len()
        invariant
            ac@ == a@,
            bc@ == b@,
            ac@.len() == bc@.len(),
            i <= ac@.len(),
            forall|j: int| 0 <= j < i ==> ac@[j] == bc@[j],
        decreases ac@.len() - i,
    {
        if ac[i] != bc[i] {
            return false;
        }
        i = i + 1;
    }
    proof {
        assert(ac@ =~= bc@);
    }
    true
}

/// The string that `bytes` encode in UTF-8, if they are valid UTF-8.
///
/// Calls `String::from_utf8`; std documents that it succeeds exactly on
/// valid UTF-8 and then holds the encoded characters. The contract states
/// this with vstd's model of UTF-8 (`valid_utf8`, `decode_utf8`).
#[verifier::external_body]
pub(crate) fn string_from_utf8(bytes: Vec<u8>) -> (s: Option<String>)
    ensures
        s is Some <==> vstd::utf8::valid_utf8(bytes@),
        s matches Some(t) ==> t@ == vstd::utf8::decode_utf8(bytes@),
{
    String::from_utf8(bytes).ok()
}

/// The position of the first `c` in `s`.
pub open spec fn first_index(s: Seq<char>, c: char) -> Option<int>
    decreases s.len(),
{
    if s.len() == 0 {
        None
    } else if s[0] == c {
        Some(0)
    } else {
        match first_index(s.skip(1), c) {
            Some(i) => Some(i + 1),
            None => None,
        }
    }
}

/// `s` cut at its first `c`: the text before and after it.
pub open spec fn split_once_spec(s: Seq<char>, c: char) -> Option<(Seq<char>, Seq<char>)> {
    match first_index(s, c) {
        Some(i) => Some((s.take(i), s.skip(i + 1))),
        None => None,
    }
}

proof fn lemma_first_index(s: Seq<char>, c: char, k: int)
    requires
        0 <= k <= s.len(),
        forall|j: int| 0 <= j < k ==> s[j] != c,
    ensures
        k < s.len() && s[k] == c ==> first_index(s, c) == Some(k),
        k == s.len() ==> first_index(s, c) is None,
    decreases k,
{
    if k > 0 {
        lemma_first_index(s.skip(1), c, k - 1);
    }
}

/// Cuts `s` at its first `c`.
pub fn split_once(s: &str, c: char) -> (r: Option<(String, String)>)
    ensures
        match (r, split_once_spec(s@, c)) {
            (Some((a, b)), Some((x, y))) => a@ == x && b@ == y,
            (None, None) => true,
            _ => false,
        },
{
    let chars = chars_of(s);
    let mut i: usize = 0;
    while i < chars.len()
        invariant
            chars@ == s@,
            i <= chars@.len(),
            forall|j: int| 0 <= j < i ==> chars@[j] != c,
        decreases chars@.len() - i,
    {
        if chars[i] == c {
            proof {
                lemma_first_index(s@, c, i as int);
            }
            let before = string_from_chars(&chars.as_slice()[0..i]);
            let after = string_from_chars(&chars.as_slice()[i + 1..chars.len()]);
            proof {
                assert(chars@.subrange(0, i as int) =~= s@.take(i as int));
                assert(chars@.subrange(i + 1, chars@.len() as int) =~= s@.skip(i + 1));
            }
            return Some((before, after));
        }
        i = i + 1;
    }
    proof {
        lemma_first_index(s@, c, i as int);
    }
    None
}

/// The text of one decimal digit.
pub open spec fn digit_text(d: nat) -> Seq<char> {
    if d == 0 {
        "0"@
    } else if d == 1 {
        "1"@
    } else if d == 2 {
        "2"@
    } else if d == 3 {
        "3"@
    } else if d == 4 {
        "4"@
    } else if d == 5 {
        "5"@
    } else if d == 6 {
        "6"@
    } else if d == 7 {
        "7"@
    } else if d == 8 {
        "8"@
    } else {
        "9"@
    }
}

/// The decimal text of `n`, without leading zeros.
pub open spec fn decimal(n: nat) -> Seq<char>
    decreases n,
{
    if n < 10 {
        digit_text(n)
    } else {
        decimal(n / 10) + digit_text(n % 10)
    }
}

fn digit_str(d: u128) -> (s: &'static str)
    requires
        d < 10,
    ensures
        s@ == digit_text(d as nat),
{
    if d == 0 {
        "0"
    } else if d == 1 {
        "1"
    } else if d == 2 {
        "2"
    } else if d == 3 {
        "3"
    } else if d == 4 {
        "4"
    } else if d == 5 {
        "5"
    } else if d == 6 {
        "6"
    } else if d == 7 {
        "7"
    } else if d == 8 {
        "8"
    } else {
        "9"
    }
}

/// Appends the decimal text of `n`.
pub fn write_decimal(f: &mut String, n: u128)
    ensures
        final(f)@ == old(f)@ + decimal(n as nat),
    decreases n,
{
    if n >= 10 {
        write_decimal(f, n / 10);
    }
    f.append(digit_str(n % 10));
    proof {
        assert(final(f)@ =~= old(f)@ + decimal(n as nat));
    }
}

} // verus!
