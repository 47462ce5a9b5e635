use vstd::prelude::*;
use vstd::string::*;
use vstd::utf8::*;

verus! {

/// Each byte taken as the character of the same number.
pub open spec fn latin1(bytes: Seq<u8>) -> Seq<char> {
    Seq::new(bytes.len(), |i: int| bytes[i] as char)
}

/// The characters of `latin1`, one per byte.
pub fn latin1_chars(bytes: &[u8]) -> (v: Vec<char>)
    ensures
        v@ == latin1(bytes@),
{
    let mut v: Vec<char> = Vec::new();
    let mut i: usize = 0;
    while i < bytes.len()
        invariant
            i <= bytes@.len(),
            v@ == latin1(bytes@.take(i as int)),
        decreases bytes@.len() - i,
    {
        let b: u8 = bytes[i];
        v.push(b as char);
        i = i + 1;
        assert(latin1(bytes@.take(i as int)) =~= latin1(bytes@.take((i - 1) as int)).push(b as char));
    }
    assert(bytes@.take(i as int) =~= bytes@);
    v
}

/// The characters of a string slice, in order.
pub fn chars_of(s: &str) -> (v: Vec<char>)
    ensures
        v@ == s@,
{
    broadcast use vstd::string::group_string_axioms;
    let mut v: Vec<char> = Vec::new();
    for c in iter: s.chars()
        invariant
            v@ == iter.seq().take(iter.index() as int),
    {
        v.push(c);
    }
    v
}


/// `String::push`: appends one character to the end of the string.
#[verifier::external_body]
fn push_char(s: &mut String, c: char)
    ensures
        final(s)@ == old(s)@.push(c),
{
    s.push(c);
}

/// Builds a `String` holding exactly the given characters, in order.
pub fn string_of(chars: &[char]) -> (s: String)
    ensures
        s@ == chars@,
{
    let mut s = String::new();
    let mut i: usize = 0;
    while i < chars.len()
        invariant
            i <= chars@.len(),
            s@ == chars@.take(i as int),
        decreases chars@.len() - i,
    {
        push_char(&mut s, chars[i]);
        i = i + 1;
        assert(chars@.take(i as int) =~= chars@.take((i - 1) as int).push(chars@[i - 1]));
    }
    assert(chars@.take(i as int) =~= chars@);
    s
}

/// The character of a decimal digit.
pub open spec fn digit_char(d: nat) -> char {
    (d + 48) as char
}

/// The decimal notation of `n`, without sign or leading zeros.
pub open spec fn decimal(n: nat) -> Seq<char>
    decreases n,
{
    if n < 10 {
        seq![digit_char(n)]
    } else {
        decimal(n / 10).push(digit_char(n % 10))
    }
}

/// A decimal digit character.
pub open spec fn is_digit(c: char) -> bool {
    '0' <= c <= '9'
}

/// The number that a text of decimal digits reads as.
pub open spec fn read_decimal(s: Seq<char>) -> nat
    decreases s.len(),
{
    if s.len() == 0 {
        0
    } else {
        read_decimal(s.drop_last()) * 10 + ((s.last() as nat) - 48) as nat
    }
}

/// The decimal notation of any number is a non-empty text of digits that
/// reads back as that number.
pub proof fn lemma_decimal_reads_back(n: nat)
    ensures
        decimal(n).len() > 0,
        forall|i: int| 0 <= i < decimal(n).len() ==> is_digit(#[trigger] decimal(n)[i]),
        read_decimal(decimal(n)) == n,
    decreases n,
{
    assert((digit_char(n % 10) as nat) == n % 10 + 48);
    if n >= 10 {
        lemma_decimal_reads_back(n / 10);
        let d = decimal(n);
        assert(d.drop_last() =~= decimal(n / 10));
        assert(d.last() == digit_char(n % 10));
        assert(read_decimal(d) == read_decimal(d.drop_last()) * 10 + ((d.last() as nat) - 48) as nat);
        assert(n == (n / 10) * 10 + n % 10);
        assert forall|i: int| 0 <= i < d.len() implies is_digit(#[trigger] d[i]) by {
            if i < d.len() - 1 {
                assert(d[i] == decimal(n / 10)[i]);
            }
        }
    } else {
        let d = decimal(n);
        assert(d.drop_last() =~= Seq::<char>::empty());
        assert(d.last() == digit_char(n % 10));
        assert(read_decimal(d) == read_decimal(d.drop_last()) * 10 + ((d.last() as nat) - 48) as nat);
    }
}

/// Different numbers have different decimal notations.
pub proof fn lemma_decimal_injective(a: nat, b: nat)
    requires
        a != b,
    ensures
        decimal(a) != decimal(b),
{
    lemma_decimal_reads_back(a);
    lemma_decimal_reads_back(b);
}

/// Appends the decimal notation of `n`.
fn push_decimal(out: &mut Vec<char>, n: usize)
    ensures
        final(out)@ == old(out)@ + decimal(n as nat),
    decreases n,
{
    if n >= 10 {
        push_decimal(out, n / 10);
    }
    let d: u8 = (n % 10) as u8;
    out.push((d + 48) as char);
    proof {
        assert(((d + 48) as u8) as char == digit_char((n % 10) as nat));
    }
}

/// The characters of the decimal notation of `n`.
pub fn decimal_chars(n: usize) -> (v: Vec<char>)
    ensures
        v@ == decimal(n as nat),
{
    let mut v: Vec<char> = Vec::new();
    push_decimal(&mut v, n);
    assert(Seq::<char>::empty() + decimal(n as nat) =~= decimal(n as nat));
    v
}

/// The placeholder `{i}` that a route target uses for capture group `i`.
pub open spec fn placeholder(i: nat) -> Seq<char> {
    seq!['{'] + decimal(i) + seq!['}']
}

/// The characters of `{i}`.
pub fn placeholder_chars(i: usize) -> (v: Vec<char>)
    ensures
        v@ == placeholder(i as nat),
{
    let mut v: Vec<char> = Vec::new();
    v.push('{');
    push_decimal(&mut v, i);
    v.push('}');
    v
}

/// `s` with every occurrence of the non-empty `from` replaced by `to`, scanning
/// from the left and never letting two occurrences overlap.
pub open spec fn replace_all(s: Seq<char>, from: Seq<char>, to: Seq<char>) -> Seq<char>
    recommends
        from.len() > 0,
    decreases s.len(),
{
    if from.len() == 0 || s.len() < from.len() {
        s
    } else if s.take(from.len() as int) == from {
        to + replace_all(s.skip(from.len() as int), from, to)
    } else {
        seq![s[0]] + replace_all(s.skip(1), from, to)
    }
}


/// Whether `pat` occurs in `s` starting at position `i`.
fn occurs_at(s: &[char], i: usize, pat: &[char]) -> (b: bool)
    requires
        i <= s@.len(),
    ensures
        b == (pat@.len() <= s@.len() - i && s@.subrange(i as int, i + pat@.len()) == pat@),
{
    let n: usize = s.len();
    if pat.len() > n - i {
        return false;
    }
    let mut k: usize = 0;
    while k < pat.len()
        invariant
            n == s@.len(),
            pat@.len() <= s@.len() - i,
            i <= s@.len(),
            k <= pat@.len(),
            forall|j: int| 0 <= j < k ==> s@[i + j] == pat@[j],
        decreases pat@.len() - k,
    {
        if s[i + k] != pat[k] {
            assert(s@.subrange(i as int, i + pat@.len())[k as int] != pat@[k as int]);
            return false;
        }
        k = k + 1;
    }
    assert(s@.subrange(i as int, i + pat@.len()) =~= pat@);
    true
}

/// Replaces every occurrence of `from` in `s` by `to`, as `str::replace` does.
pub fn replace_chars(s: &[char], from: &[char], to: &[char]) -> (r: Vec<char>)
    requires
        from@.len() > 0,
    ensures
        r@ == replace_all(s@, from@, to@),
{
    let mut out: Vec<char> = Vec::new();
    let mut i: usize = 0;
    assert(s@.skip(0) =~= s@);
    assert(out@ + replace_all(s@, from@, to@) =~= replace_all(s@, from@, to@));
    while i < s.len()
        invariant
            from@.len() > 0,
            i <= s@.len(),
            out@ + replace_all(s@.skip(i as int), from@, to@) == replace_all(s@, from@, to@),
        decreases s@.len() - i,
    {
        let rest: Ghost<Seq<char>> = Ghost(s@.skip(i as int));
        if occurs_at(s, i, from) {
            assert(rest@.take(from@.len() as int) =~= s@.subrange(i as int, i + from@.len()));
            assert(rest@.skip(from@.len() as int) =~= s@.skip(i + from@.len()));
            let mut k: usize = 0;
            let ghost before = out@;
            while k < to.len()
                invariant
                    k <= to@.len(),
                    out@ == before + to@.take(k as int),
                decreases to@.len() - k,
            {
                out.push(to[k]);
                k = k + 1;
                assert(to@.take(k as int) =~= to@.take((k - 1) as int).push(to@[k - 1]));
            }
            assert(to@.take(k as int) =~= to@);
            assert(out@ + replace_all(s@.skip(i + from@.len()), from@, to@) =~= before + (to@
                + replace_all(rest@.skip(from@.len() as int), from@, to@)));
            i = i + from.len();
        } else {
            assert(rest@.skip(1) =~= s@.skip(i + 1));
            proof {
                if rest@.len() < from@.len() {
                    assert(replace_all(rest@, from@, to@) == rest@);
                    assert(replace_all(rest@.skip(1), from@, to@) == rest@.skip(1));
                } else {
                    assert(rest@.take(from@.len() as int) =~= s@.subrange(i as int, i + from@.len()));
                }
            }
            assert(seq![rest@[0]] + rest@.skip(1) =~= rest@);
            let ghost before = out@;
            out.push(s[i]);
            assert(out@ + replace_all(s@.skip(i + 1), from@, to@) =~= before + (seq![rest@[0]]
                + replace_all(rest@.skip(1), from@, to@)));
            i = i + 1;
        }
    }
    assert(s@.skip(i as int) =~= Seq::<char>::empty());
    assert(out@ + Seq::<char>::empty() =~= out@);
    out
}


/// What `truncate_tag` shows of `tag`: the whole tag when its UTF-8 encoding
/// is at most `max_len` bytes long, else its first `max_len` bytes followed by
/// three dots.
pub open spec fn truncated(tag: Seq<char>, max_len: nat) -> Seq<char> {
    if encode_utf8(tag).len() <= max_len {
        tag
    } else {
        decode_utf8(encode_utf8(tag).take(max_len as int)) + seq!['.', '.', '.']
    }
}

/// Shortens a tag for display. The cut is made at byte `max_len`, which must
/// fall on a character boundary when the tag is longer than that.
pub fn truncate_tag(tag: &str, max_len: usize) -> (r: String)
    requires
        tag.spec_bytes().len() <= max_len || is_char_boundary(tag.spec_bytes(), max_len as int),
    ensures
        r@ == truncated(tag@, max_len as nat),
{
    broadcast use vstd::string::group_string_axioms;
    broadcast use encode_utf8_decode_utf8, encode_utf8_valid_utf8;

    if tag.as_bytes().len() <= max_len {
        let r = tag.to_string();
        assert(r@ == tag@);
        r
    } else {
        let (head, _tail) = tag.split_at(max_len);
        let r = String::from_str(head).concat("...");
        proof {
            reveal_strlit("...");
            assert(head@ == decode_utf8(head.spec_bytes()));
            assert(head.spec_bytes() == tag.spec_bytes().take(max_len as int));
            assert("..."@ == seq!['.', '.', '.']);
        }
        r
    }
}


/// What `String::from_utf8_lossy` makes of a byte sequence.
pub uninterp spec fn utf8_lossy(bytes: Seq<u8>) -> Seq<char>;

/// `String::from_utf8_lossy`, taken as an owned `String`. Its documentation
/// states that valid UTF-8 is decoded as it stands; other input has each
/// invalid sequence replaced by U+FFFD, which is left unstated here.
#[verifier::external_body]
pub(crate) fn string_from_utf8_lossy(bytes: &[u8]) -> (s: String)
    ensures
        s@ == utf8_lossy(bytes@),
        valid_utf8(bytes@) ==> s@ == decode_utf8(bytes@),
{
    String::from_utf8_lossy(bytes).into_owned()
}

} // verus!
