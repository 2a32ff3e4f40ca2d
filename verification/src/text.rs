//! Text: characters, numbers in decimal, and lines of a given width.

use vstd::prelude::*;
use crate::foreign;

verus! {

/// The characters of a text.
pub fn chars_of(s: &str) -> (r: Vec<char>)
    ensures
        r@ == s@,
{
    let mut v: Vec<char> = Vec::new();
    for c in it: s.chars()
        invariant
            v@ == it.seq().take(it.index()),
            it.seq() == s@,
    {
        v.push(c);
        assert(it.seq().take(it.index() + 1) =~= it.seq().take(it.index()).push(c));
    }
    v
}

/// The text of the characters.
pub fn string_of(chars: &[char]) -> (r: String)
    ensures
        r@ == chars@,
{
    let mut s = String::new();
    let mut i: usize = 0;
    assert(s@ =~= chars@.take(0));
    while i < chars.len()
        invariant
            i <= chars@.len(),
            s@ == chars@.take(i as int),
        decreases chars@.len() - i,
    {
        foreign::push_char(&mut s, chars[i]);
        assert(chars@.take(i + 1) =~= chars@.take(i as int).push(chars@[i as int]));
        i = i + 1;
    }
    assert(chars@.take(i as int) =~= chars@);
    s
}

pub open spec fn digit(d: int) -> char {
    (48 + d) as char
}

/// A number in decimal.
pub open spec fn decimal(n: int) -> Seq<char>
    decreases n,
{
    if n < 10 {
        seq![digit(n)]
    } else {
        decimal(n / 10).push(digit(n % 10))
    }
}

/// The character of a digit.
pub fn digit_of(d: u8) -> (r: char)
    requires
        d < 10,
    ensures
        r == digit(d as int),
{
    (48 + d) as char
}

/// Appends a number in decimal.
pub fn push_decimal(s: &mut String, n: u128)
    ensures
        final(s)@ == old(s)@ + decimal(n as int),
    decreases n,
{
    if n >= 10 {
        push_decimal(s, n / 10);
    }
    foreign::push_char(s, digit_of((n % 10) as u8));
    assert(s@ =~= old(s)@ + decimal(n as int));
}

/// The characters that part words: those with the property `White_Space`.
pub open spec fn is_space(c: char) -> bool {
    ||| 0x9 <= c as u32 <= 0xd
    ||| c as u32 == 0x20
    ||| c as u32 == 0x85
    ||| c as u32 == 0xa0
    ||| c as u32 == 0x1680
    ||| 0x2000 <= c as u32 <= 0x200a
    ||| c as u32 == 0x2028
    ||| c as u32 == 0x2029
    ||| c as u32 == 0x202f
    ||| c as u32 == 0x205f
    ||| c as u32 == 0x3000
}

fn parts_words(c: char) -> (r: bool)
    ensures
        r == is_space(c),
{
    let u: u32 = c as u32;
    (0x9 <= u && u <= 0xd) || u == 0x20 || u == 0x85 || u == 0xa0 || u == 0x1680 || (0x2000 <= u && u
        <= 0x200a) || u == 0x2028 || u == 0x2029 || u == 0x202f || u == 0x205f || u == 0x3000
}

/// The words of a text: the longest runs without a space.
pub open spec fn words(s: Seq<char>) -> Seq<Seq<char>>
    decreases s.len(),
{
    if s.len() == 0 {
        Seq::empty()
    } else {
        let before = words(s.drop_last());
        if is_space(s.last()) {
            before
        } else if s.len() >= 2 && !is_space(s[s.len() - 2]) {
            before.update(before.len() - 1, before.last().push(s.last()))
        } else {
            before.push(seq![s.last()])
        }
    }
}

/// The length of a text in bytes.
pub open spec fn byte_len(s: Seq<char>) -> nat {
    vstd::utf8::encode_utf8(s).len()
}

/// The first `n` words in lines: a word goes into the line if the line stays
/// within `w` bytes, and else starts a new one.
pub open spec fn lines(words: Seq<Seq<char>>, n: int, w: int) -> Seq<Seq<char>>
    decreases n,
{
    if n <= 0 {
        Seq::empty()
    } else {
        let before = lines(words, n - 1, w);
        let word = words[n - 1];
        if before.len() == 0 || byte_len(before.last()) + 1 + byte_len(word) > w {
            before.push(word)
        } else {
            before.update(before.len() - 1, before.last().push(' ') + word)
        }
    }
}

pub open spec fn texts(v: Seq<String>) -> Seq<Seq<char>> {
    v.map_values(|s: String| s@)
}

proof fn lemma_words(s: Seq<char>, i: int)
    requires
        0 <= i < s.len(),
    ensures
        i > 0 && !is_space(s[i - 1]) ==> words(s.take(i)).len() > 0,
        words(s.take(i + 1)) == (if is_space(s[i]) {
            words(s.take(i))
        } else if i > 0 && !is_space(s[i - 1]) {
            words(s.take(i)).update(
                words(s.take(i)).len() - 1,
                words(s.take(i)).last().push(s[i]),
            )
        } else {
            words(s.take(i)).push(seq![s[i]])
        }),
    decreases i,
{
    assert(s.take(i + 1).drop_last() =~= s.take(i));
    if i > 0 {
        lemma_words(s, i - 1);
        assert(s.take(i).drop_last() =~= s.take(i - 1));
    }
}

/// The words of a text.
fn split_words(s: &str) -> (r: Vec<String>)
    ensures
        texts(r@) == words(s@),
{
    let c = chars_of(s);
    let mut out: Vec<String> = Vec::new();
    let mut word = String::new();
    let mut inside = false;
    let mut i: usize = 0;
    proof {
        assert(c@.take(0) =~= Seq::empty());
        assert(texts(out@) =~= words(c@.take(0)));
    }
    while i < c.len()
        invariant
            i <= c@.len(),
            inside == (i > 0 && !is_space(c@[i - 1])),
            !inside ==> texts(out@) == words(c@.take(i as int)) && word@.len() == 0,
            inside ==> words(c@.take(i as int)) == texts(out@).push(word@),
        decreases c@.len() - i,
    {
        proof {
            lemma_words(c@, i as int);
        }
        if parts_words(c[i]) {
            if inside {
                let ghost before = texts(out@);
                let ghost done = word@;
                out.push(word);
                word = String::new();
                assert(texts(out@) =~= before.push(done));
            }
            inside = false;
        } else {
            let ghost before = words(c@.take(i as int));
            foreign::push_char(&mut word, c[i]);
            proof {
                if inside {
                    assert(before.update(before.len() - 1, before.last().push(c@[i as int]))
                        =~= texts(out@).push(word@));
                } else {
                    assert(word@ =~= seq![c@[i as int]]);
                }
            }
            inside = true;
        }
        i = i + 1;
    }
    assert(c@.take(i as int) =~= c@);
    if inside {
        let ghost before = texts(out@);
        let ghost done = word@;
        out.push(word);
        assert(texts(out@) =~= before.push(done));
    }
    out
}

/// The text in lines of at most `w` bytes, broken between words. A word that is
/// longer has a line of its own.
pub fn wrap(s: &str, w: usize) -> (r: Vec<String>)
    ensures
        texts(r@) == lines(words(s@), words(s@).len() as int, w as int),
{
    let ws = split_words(s);
    let ghost all = words(s@);
    let mut out: Vec<String> = Vec::new();
    let mut line = String::new();
    let mut i: usize = 0;
    assert(texts(out@) =~= lines(all, 0, w as int));
    while i < ws.len()
        invariant
            i <= ws@.len(),
            texts(ws@) == all,
            i == 0 ==> texts(out@) == lines(all, 0, w as int) && line@.len() == 0,
            i > 0 ==> lines(all, i as int, w as int) == texts(out@).push(line@),
        decreases ws@.len() - i,
    {
        let ghost before = lines(all, i as int, w as int);
        assert(texts(ws@)[i as int] == ws@[i as int]@);
        let word = ws[i].as_str();
        let fits = i > 0 && line.as_str().as_bytes().len() as u128 + 1
            + word.as_bytes().len() as u128 <= w as u128;
        if fits {
            let ghost held = line@;
            foreign::push_char(&mut line, ' ');
            line.append(word);
            assert(before.update(before.len() - 1, held.push(' ') + word@) =~= texts(out@).push(
                line@,
            ));
        } else {
            if i > 0 {
                let ghost kept = texts(out@);
                let ghost held = line@;
                out.push(line);
                assert(texts(out@) =~= kept.push(held));
            }
            line = String::from_str(word);
        }
        i = i + 1;
    }
    if ws.len() > 0 {
        let ghost kept = texts(out@);
        let ghost held = line@;
        out.push(line);
        assert(texts(out@) =~= kept.push(held));
    }
    out
}

} // verus!
