use vstd::prelude::*;

verus! {

/// Appends `c` to `s` by `String::push` (std). Trusted, not proved: the
/// contract claims that the string's characters afterwards are the old ones
/// followed by `c`, as std documents for `push`.
#[verifier::external_body]
fn push_char(s: &mut String, c: char)
    ensures
        final(s)@ == old(s)@.push(c),
{
    s.push(c);
}

/// The characters of `s`, in order.
pub fn chars_of(s: &str) -> (v: Vec<char>)
    ensures
        v@ == s@,
{
    broadcast use vstd::string::group_string_axioms;
    let mut v: Vec<char> = Vec::new();
    for c in it: s.chars()
        invariant
            v@ == it.seq().take(it.index() as int),
    {
        v.push(c);
        assert(v@ =~= it.seq().take(it.index() + 1));
    }
    v
}

/// The string made of the characters of `cs`, in order.
pub fn string_of(cs: &Vec<char>) -> (s: String)
    ensures
        s@ == cs@,
{
    let mut s = String::new();
    for i in 0..cs.len()
        invariant
            s@ == cs@.take(i as int),
    {
        push_char(&mut s, cs[i]);
        assert(s@ =~= cs@.take(i + 1));
    }
    assert(cs@.take(cs@.len() as int) =~= cs@);
    s
}

/// The first character of `s`, or `'\0'` when `s` is empty.
pub open spec fn first_char(s: Seq<char>) -> char {
    if s.len() > 0 {
        s[0]
    } else {
        '\0'
    }
}

/// A non-empty text's label is its first character, whatever that character
/// is; only the empty text has the label `'\0'`.
pub proof fn lemma_first_char(s: Seq<char>)
    ensures
        s.len() > 0 ==> first_char(s) == s[0],
        s.len() == 0 ==> first_char(s) == '\0',
        forall|c: char| first_char(seq![c]) == c,
{
    assert forall|c: char| first_char(seq![c]) == c by {
        assert(seq![c][0] == c);
    }
}

/// The first character of `s`, or `'\0'` when `s` is empty.
pub fn first_char_of(s: &str) -> (c: char)
    ensures
        c == first_char(s@),
{
    broadcast use vstd::string::group_string_axioms;
    let mut it = s.chars();
    it.next().unwrap_or('\0')
}

/// The lower-case hexadecimal digit of `n` (below 16).
pub open spec fn hex_digit(n: int) -> char {
    if n < 10 {
        (48 + n) as char
    } else {
        (87 + n) as char
    }
}

/// The 16 bytes of `b` as 32 lower-case hexadecimal digits, two per byte,
/// with a `'-'` before bytes 4, 6, 8 and 10: the first `n` bytes of it.
pub open spec fn dashed_hex(b: Seq<u8>, n: nat) -> Seq<char>
    decreases n,
{
    if n == 0 {
        Seq::empty()
    } else {
        let i = n - 1;
        let dash: Seq<char> = if i == 4 || i == 6 || i == 8 || i == 10 {
            seq!['-']
        } else {
            Seq::empty()
        };
        dashed_hex(b, i as nat) + dash + seq![hex_digit((b[i] / 16) as int), hex_digit((b[i] % 16) as int)]
    }
}

fn hex_char(n: u8) -> (c: char)
    requires
        n < 16,
    ensures
        c == hex_digit(n as int),
{
    if n < 10 {
        (48 + n) as char
    } else {
        (87 + n) as char
    }
}

/// The canonical hyphenated lower-case text of a 16-byte UUID, such as
/// `00010203-0405-0607-0809-0a0b0c0d0e0f`.
pub fn uuid_to_hyphenated_string(bytes16: &[u8; 16]) -> (s: String)
    ensures
        s@ == dashed_hex(bytes16@, 16),
{
    let mut s = String::new();
    let mut i: usize = 0;
    while i < 16
        invariant
            i <= 16,
            bytes16@.len() == 16,
            s@ == dashed_hex(bytes16@, i as nat),
        decreases 16 - i,
    {
        if i == 4 || i == 6 || i == 8 || i == 10 {
            push_char(&mut s, '-');
        }
        let byte = bytes16[i];
        push_char(&mut s, hex_char(byte / 16));
        push_char(&mut s, hex_char(byte % 16));
        i += 1;
        assert(s@ =~= dashed_hex(bytes16@, i as nat));
    }
    s
}

} // verus!
