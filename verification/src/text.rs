//! Character-level text handling shared by the wire protocol.

use vstd::prelude::*;

verus! {

/// Unicode `White_Space`, the set that `char::is_whitespace` and `str::trim` use.
pub open spec fn is_white_space(c: char) -> bool {
    let u = c as u32;
    ||| 0x09 <= u <= 0x0d
    ||| u == 0x20
    ||| u == 0x85
    ||| u == 0xa0
    ||| u == 0x1680
    ||| 0x2000 <= u <= 0x200a
    ||| u == 0x2028
    ||| u == 0x2029
    ||| u == 0x202f
    ||| u == 0x205f
    ||| u == 0x3000
}

/// `s` without its leading white space.
pub open spec fn trim_start(s: Seq<char>) -> Seq<char>
    decreases s.len(),
{
    if s.len() > 0 && is_white_space(s[0]) {
        trim_start(s.drop_first())
    } else {
        s
    }
}

/// `s` without its trailing white space.
pub open spec fn trim_end(s: Seq<char>) -> Seq<char>
    decreases s.len(),
{
    if s.len() > 0 && is_white_space(s.last()) {
        trim_end(s.drop_last())
    } else {
        s
    }
}

/// `s` without leading and trailing white space.
pub open spec fn trim(s: Seq<char>) -> Seq<char> {
    trim_end(trim_start(s))
}

/// `str::trim`: the slice of `s` left after removing leading and trailing
/// Unicode white space.
#[verifier::external_body]
pub(crate) fn trim_str<'a>(s: &'a str) -> (r: &'a str)
    ensures
        r@ == trim(s@),
{
    s.trim()
}

/// `core::str::from_utf8`: the text that `v` encodes when `v` is valid UTF-8.
#[verifier::external_body]
pub(crate) fn str_from_utf8<'a>(v: &'a [u8]) -> (r: Option<&'a str>)
    ensures
        r is Some <==> vstd::utf8::valid_utf8(v@),
        r matches Some(s) ==> s@ == vstd::utf8::decode_utf8(v@),
{
    core::str::from_utf8(v).ok()
}

/// Trimming `s` with one more character at its end: if `s` is all white space
/// the new character is trimmed alone, otherwise it follows the trimmed start.
proof fn lemma_trim_start_push(s: Seq<char>, c: char)
    ensures
        trim_start(s.push(c)) == if trim_start(s).len() == 0 {
            trim_start(seq![c])
        } else {
            trim_start(s).push(c)
        },
    decreases s.len(),
{
    if s.len() > 0 {
        assert(s.push(c)[0] == s[0]);
        assert(s.push(c).drop_first() =~= s.drop_first().push(c));
        if is_white_space(s[0]) {
            lemma_trim_start_push(s.drop_first(), c);
        }
    } else {
        assert(s.push(c) =~= seq![c]);
    }
}

/// A line feed at the end of a line is trimmed away with the rest of the
/// trailing white space.
pub proof fn lemma_trim_ignores_line_feed(s: Seq<char>)
    ensures
        trim(s.push('\n')) == trim(s),
{
    lemma_trim_start_push(s, '\n');
    let t = trim_start(s);
    if t.len() == 0 {
        assert(seq!['\n'].drop_first() =~= Seq::<char>::empty());
        assert(trim_start(seq!['\n']) == trim_start(Seq::<char>::empty()));
    } else {
        assert(t.push('\n').drop_last() =~= t);
    }
}

/// The UTF-8 bytes of joined text are the bytes of its parts, joined.
pub proof fn lemma_encode_utf8_concat(a: Seq<char>, b: Seq<char>)
    ensures
        vstd::utf8::encode_utf8(a + b) == vstd::utf8::encode_utf8(a) + vstd::utf8::encode_utf8(b),
    decreases a.len(),
{
    if a.len() == 0 {
        assert(a + b =~= b);
        assert(vstd::utf8::encode_utf8(a) =~= Seq::<u8>::empty());
        assert(Seq::<u8>::empty() + vstd::utf8::encode_utf8(b) =~= vstd::utf8::encode_utf8(b));
    } else {
        assert((a + b)[0] == a[0]);
        assert((a + b).drop_first() =~= a.drop_first() + b);
        lemma_encode_utf8_concat(a.drop_first(), b);
        let head = vstd::utf8::encode_scalar(a[0] as u32);
        assert(head + (vstd::utf8::encode_utf8(a.drop_first()) + vstd::utf8::encode_utf8(b))
            =~= (head + vstd::utf8::encode_utf8(a.drop_first())) + vstd::utf8::encode_utf8(b));
    }
}

/// The characters of `s`, in order.
pub(crate) fn chars_of(s: &str) -> (r: Vec<char>)
    ensures
        r@ == s@,
{
    broadcast use vstd::string::axiom_spec_iter;

    let mut out: Vec<char> = Vec::new();
    for c in it: s.chars()
        invariant
            it.seq() == s@,
            out@ == it.seq().take(it.index() as int),
    {
        out.push(c);
    }
    assert(out@ =~= s@);
    out
}


/// The bytes that `u8::is_ascii_whitespace` accepts, as characters:
/// space, tab, line feed, form feed and carriage return.
pub open spec fn is_ascii_space(c: char) -> bool {
    c == ' ' || c == '\t' || c == '\n' || c == '\x0C' || c == '\r'
}

/// Splitting `s` left to right: the words already closed by a space, and the
/// word still being read.
pub open spec fn split_state(s: Seq<char>) -> (Seq<Seq<char>>, Seq<char>)
    decreases s.len(),
{
    if s.len() == 0 {
        (Seq::empty(), Seq::empty())
    } else {
        let (done, cur) = split_state(s.drop_last());
        if is_ascii_space(s.last()) {
            if cur.len() > 0 {
                (done.push(cur), Seq::empty())
            } else {
                (done, Seq::empty())
            }
        } else {
            (done, cur.push(s.last()))
        }
    }
}

/// The words of `s` as `str::split_ascii_whitespace` yields them: the maximal
/// non-empty runs of characters that are not ASCII white space.
pub open spec fn words(s: Seq<char>) -> Seq<Seq<char>> {
    let (done, cur) = split_state(s);
    if cur.len() > 0 {
        done.push(cur)
    } else {
        done
    }
}

pub open spec fn is_digit(c: char) -> bool {
    '0' <= c && c <= '9'
}

pub open spec fn digit_value(c: char) -> nat {
    (c as u32 - '0' as u32) as nat
}

pub open spec fn digit_char(d: nat) -> char {
    ('0' as u32 + d) as char
}

pub open spec fn all_digits(s: Seq<char>) -> bool {
    forall|i: int| 0 <= i < s.len() ==> #[trigger] is_digit(s[i])
}

/// The number that the decimal digits `s` spell, most significant first.
pub open spec fn decimal_value(s: Seq<char>) -> nat
    decreases s.len(),
{
    if s.len() == 0 {
        0
    } else {
        decimal_value(s.drop_last()) * 10 + digit_value(s.last())
    }
}

/// What `str::parse::<u8>` accepts: an optional `+`, then at least one ASCII
/// digit, spelling a number no larger than 255.
pub open spec fn parse_u8_text(t: Seq<char>) -> Option<u8> {
    let d = if t.len() > 0 && t[0] == '+' { t.drop_first() } else { t };
    if d.len() > 0 && all_digits(d) && decimal_value(d) <= 255 {
        Some(decimal_value(d) as u8)
    } else {
        None
    }
}

/// The decimal spelling of `n`, without leading zeros.
pub open spec fn decimal(n: nat) -> Seq<char>
    decreases n,
{
    if n < 10 {
        seq![digit_char(n)]
    } else {
        decimal(n / 10).push(digit_char(n % 10))
    }
}

/// `String::push`: appends `c`.
#[verifier::external_body]
pub(crate) fn push_char(s: &mut String, c: char)
    ensures
        final(s)@ == old(s)@.push(c),
{
    s.push(c);
}

/// `w` is the word `lit`.
pub(crate) fn word_is(w: &Vec<char>, lit: &str) -> (r: bool)
    ensures
        r == (w@ == lit@),
{
    let l = chars_of(lit);
    if w.len() != l.len() {
        return false;
    }
    let mut i: usize = 0;
    while i < w.len()
        invariant
            w.len() == l.len(),
            l@ == lit@,
            i <= w.len(),
            forall|k: int| 0 <= k < i ==> w@[k] == l@[k],
        decreases w.len() - i,
    {
        if w[i] != l[i] {
            return false;
        }
        i = i + 1;
    }
    assert(w@ =~= l@);
    true
}

/// The words of `cs`, split at ASCII white space.
pub(crate) fn split_words(cs: &Vec<char>) -> (r: Vec<Vec<char>>)
    ensures
        r@.map_values(|w: Vec<char>| w@) == words(cs@),
{
    let mut done: Vec<Vec<char>> = Vec::new();
    let mut cur: Vec<char> = Vec::new();
    let n: usize = cs.len();
    let mut i: usize = 0;
    while i < n
        invariant
            n == cs.len(),
            i <= n,
            (done@.map_values(|w: Vec<char>| w@), cur@) == split_state(cs@.take(i as int)),
        decreases n - i,
    {
        let c = cs[i];
        assert(cs@.take(i + 1).drop_last() =~= cs@.take(i as int));
        if c == ' ' || c == '\t' || c == '\n' || c == '\x0C' || c == '\r' {
            if cur.len() > 0 {
                let ghost before = done@.map_values(|w: Vec<char>| w@);
                let w = cur;
                done.push(w);
                assert(done@.map_values(|w: Vec<char>| w@) =~= before.push(w@));
                cur = Vec::new();
            }
        } else {
            cur.push(c);
        }
        i = i + 1;
    }
    assert(cs@.take(n as int) =~= cs@);
    if cur.len() > 0 {
        let ghost before = done@.map_values(|w: Vec<char>| w@);
        let w = cur;
        done.push(w);
        assert(done@.map_values(|w: Vec<char>| w@) =~= before.push(w@));
    }
    done
}

/// `str::parse::<u8>` on the word `t`.
pub(crate) fn parse_u8(t: &Vec<char>) -> (r: Option<u8>)
    ensures
        r == parse_u8_text(t@),
{
    let n: usize = t.len();
    let start: usize = if n > 0 && t[0] == '+' { 1 } else { 0 };
    let ghost d = if t@.len() > 0 && t@[0] == '+' { t@.drop_first() } else { t@ };
    assert(d =~= t@.skip(start as int));
    if start == n {
        return None;
    }
    let mut acc: u16 = 0;
    let mut i: usize = start;
    while i < n
        invariant
            n == t.len(),
            start <= i <= n,
            d == t@.skip(start as int),
            d == (if t@.len() > 0 && t@[0] == '+' { t@.drop_first() } else { t@ }),
            all_digits(d.take(i - start)),
            acc <= 256,
            acc <= 255 ==> acc == decimal_value(d.take(i - start)),
            acc == 256 ==> decimal_value(d.take(i - start)) > 255,
        decreases n - i,
    {
        let c = t[i];
        if !('0' <= c && c <= '9') {
            assert(d[i - start] == c);
            assert(!is_digit(d[i - start]));
            return None;
        }
        let dv: u16 = (c as u32 - '0' as u32) as u16;
        let ghost prev = d.take(i - start);
        assert(d.take(i + 1 - start).drop_last() =~= prev);
        assert(d.take(i + 1 - start).last() == c);
        if acc <= 255 {
            let next: u16 = acc * 10 + dv;
            acc = if next > 255 { 256 } else { next };
        } else {
            assert(decimal_value(d.take(i + 1 - start)) >= decimal_value(prev) * 10);
        }
        assert(all_digits(d.take(i + 1 - start))) by {
            assert forall|k: int| 0 <= k < d.take(i + 1 - start).len() implies #[trigger] is_digit(
                d.take(i + 1 - start)[k],
            ) by {
                if k < i - start {
                    assert(d.take(i + 1 - start)[k] == prev[k]);
                }
            }
        }
        i = i + 1;
    }
    assert(d.take(n - start) =~= d);
    if acc <= 255 {
        Some(acc as u8)
    } else {
        None
    }
}

/// Appends the decimal spelling of `n` to `out`.
pub(crate) fn push_decimal(out: &mut String, n: u32)
    ensures
        final(out)@ == old(out)@ + decimal(n as nat),
    decreases n,
{
    if n < 10 {
        push_char(out, char_of_digit(n));
        assert(decimal(n as nat) =~= seq![digit_char(n as nat)]);
    } else {
        push_decimal(out, n / 10);
        push_char(out, char_of_digit(n % 10));
        assert(old(out)@ + decimal(n as nat) =~= old(out)@ + decimal((n / 10) as nat) + seq![digit_char((n % 10) as nat)]);
    }
}

/// The ASCII digit for `d`.
pub(crate) fn char_of_digit(d: u32) -> (c: char)
    requires
        d < 10,
    ensures
        c == digit_char(d as nat),
{
    if d == 0 { '0' }
    else if d == 1 { '1' }
    else if d == 2 { '2' }
    else if d == 3 { '3' }
    else if d == 4 { '4' }
    else if d == 5 { '5' }
    else if d == 6 { '6' }
    else if d == 7 { '7' }
    else if d == 8 { '8' }
    else { '9' }
}


/// `w` is one word: non-empty and free of ASCII white space.
pub open spec fn is_word(w: Seq<char>) -> bool {
    w.len() > 0 && forall|i: int| 0 <= i < w.len() ==> !#[trigger] is_ascii_space(w[i])
}

/// The words `ws` joined by single spaces.
pub open spec fn join_words(ws: Seq<Seq<char>>) -> Seq<char>
    decreases ws.len(),
{
    if ws.len() == 0 {
        Seq::empty()
    } else if ws.len() == 1 {
        ws[0]
    } else {
        join_words(ws.drop_last()).push(' ') + ws.last()
    }
}

/// Joining one word more appends a space and that word.
pub proof fn lemma_join_push(ws: Seq<Seq<char>>, w: Seq<char>)
    requires
        ws.len() > 0,
    ensures
        join_words(ws.push(w)) == join_words(ws).push(' ') + w,
        join_words(seq![w]) == w,
{
    assert(ws.push(w).drop_last() =~= ws);
}

/// Reading a word after a space leaves that word as the one being read.
proof fn lemma_split_append_word(s: Seq<char>, w: Seq<char>)
    requires
        split_state(s).1.len() == 0,
        forall|i: int| 0 <= i < w.len() ==> !#[trigger] is_ascii_space(w[i]),
    ensures
        split_state(s + w) == (split_state(s).0, w),
    decreases w.len(),
{
    if w.len() == 0 {
        assert(s + w =~= s);
    } else {
        lemma_split_append_word(s, w.drop_last());
        assert((s + w).drop_last() =~= s + w.drop_last());
        assert(w.drop_last().push(w.last()) =~= w);
    }
}

/// Splitting words joined by single spaces gives the words back.
pub proof fn lemma_words_of_join(ws: Seq<Seq<char>>)
    requires
        ws.len() > 0,
        forall|i: int| 0 <= i < ws.len() ==> #[trigger] is_word(ws[i]),
    ensures
        split_state(join_words(ws)) == (ws.drop_last(), ws.last()),
        words(join_words(ws)) == ws,
    decreases ws.len(),
{
    assert(is_word(ws[ws.len() - 1]));
    if ws.len() == 1 {
        assert(is_word(ws[0]));
        lemma_split_append_word(Seq::empty(), ws[0]);
        assert(Seq::<char>::empty() + ws[0] =~= ws[0]);
        assert(ws.drop_last().push(ws.last()) =~= ws);
    } else {
        let front = ws.drop_last();
        assert forall|i: int| 0 <= i < front.len() implies #[trigger] is_word(front[i]) by {
            assert(front[i] == ws[i]);
        }
        lemma_words_of_join(front);
        let p = join_words(front).push(' ');
        assert(p.drop_last() =~= join_words(front));
        assert(split_state(p) == (front.drop_last().push(front.last()), Seq::<char>::empty()));
        assert(front.drop_last().push(front.last()) =~= front);
        assert(is_word(ws[ws.len() - 1]));
        lemma_split_append_word(p, ws.last());
        assert(front.push(ws.last()) =~= ws);
    }
    assert(ws.drop_last().push(ws.last()) =~= ws);
}

/// A line made of words joined by spaces and ended by a line feed, trimmed,
/// is the joined words.
pub proof fn lemma_trim_line(ws: Seq<Seq<char>>)
    requires
        ws.len() > 0,
        forall|i: int| 0 <= i < ws.len() ==> #[trigger] is_word(ws[i]),
        !is_white_space(ws[0][0]),
        !is_white_space(ws.last().last()),
    ensures
        trim(join_words(ws).push('\n')) == join_words(ws),
        join_words(ws).len() > 0,
        join_words(ws)[0] == ws[0][0],
        join_words(ws).last() == ws.last().last(),
    decreases ws.len(),
{
    lemma_join_ends(ws);
    let s = join_words(ws).push('\n');
    assert(trim_start(s) == s);
    assert(s.drop_last() =~= join_words(ws));
    assert(trim_end(s) == trim_end(join_words(ws)));
}

proof fn lemma_join_ends(ws: Seq<Seq<char>>)
    requires
        ws.len() > 0,
        forall|i: int| 0 <= i < ws.len() ==> #[trigger] is_word(ws[i]),
    ensures
        join_words(ws).len() > 0,
        join_words(ws)[0] == ws[0][0],
        join_words(ws).last() == ws.last().last(),
    decreases ws.len(),
{
    if ws.len() > 1 {
        let front = ws.drop_last();
        assert forall|i: int| 0 <= i < front.len() implies #[trigger] is_word(front[i]) by {
            assert(front[i] == ws[i]);
        }
        lemma_join_ends(front);
        assert(is_word(ws[ws.len() - 1]));
    } else {
        assert(is_word(ws[0]));
    }
}

/// The decimal spelling of `n` is read back as `n`.
pub proof fn lemma_decimal_value(n: nat)
    ensures
        decimal(n).len() > 0,
        all_digits(decimal(n)),
        decimal_value(decimal(n)) == n,
        is_digit(decimal(n)[0]),
        is_word(decimal(n)),
        !is_white_space(decimal(n)[0]),
        !is_white_space(decimal(n).last()),
    decreases n,
{
    if n >= 10 {
        lemma_decimal_value(n / 10);
        let s = decimal(n);
        assert(digit_value(digit_char(n % 10)) == n % 10);
        assert(n == (n / 10) * 10 + n % 10);
        assert(decimal_value(s) == decimal_value(s.drop_last()) * 10 + digit_value(s.last()));
        assert(s.drop_last() =~= decimal(n / 10));
        assert forall|i: int| 0 <= i < s.len() implies #[trigger] is_digit(s[i]) by {
            if i < s.len() - 1 {
                assert(s[i] == decimal(n / 10)[i]);
            }
        }
    }
    else {
        assert(digit_value(digit_char(n)) == n);
        assert(decimal(n).drop_last() =~= Seq::<char>::empty());
        assert(decimal_value(Seq::<char>::empty()) == 0);
        assert(decimal_value(decimal(n)) == n);
    }
    let s = decimal(n);
    assert forall|i: int| 0 <= i < s.len() implies !#[trigger] is_ascii_space(s[i]) by {
        assert(is_digit(s[i]));
    }
}

/// The decimal spelling of a number below 1000 is at most three ASCII digits.
pub proof fn lemma_decimal_short(n: nat)
    requires
        n < 1000,
    ensures
        decimal(n).len() <= 3,
        forall|i: int| 0 <= i < decimal(n).len() ==> '0' <= #[trigger] decimal(n)[i] <= '9',
{
    lemma_decimal_value(n);
    if n >= 10 {
        if n / 10 >= 10 {
            assert(n / 10 / 10 < 10);
            assert(decimal(n / 10 / 10).len() == 1);
            assert(decimal(n / 10).len() == 2);
        } else {
            assert(decimal(n / 10).len() == 1);
        }
    }
    assert forall|i: int| 0 <= i < decimal(n).len() implies '0' <= #[trigger] decimal(n)[i] <= '9' by {
        assert(is_digit(decimal(n)[i]));
    }
}

/// The decimal spelling of a number up to 255 parses as that number.
pub proof fn lemma_parse_decimal(n: u8)
    ensures
        parse_u8_text(decimal(n as nat)) == Some(n),
{
    lemma_decimal_value(n as nat);
}

} // verus!
