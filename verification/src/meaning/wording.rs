//! How numbers and texts are put into words.

use vstd::prelude::*;
use crate::numbers;
use crate::report;
use crate::scan::ScanResult;
use crate::text;

verus! {

/// The number that a row of digits stands for.
pub open spec fn value_of(s: Seq<char>) -> int
    decreases s.len(),
{
    if s.len() == 0 {
        0
    } else {
        10 * value_of(s.drop_last()) + (s.last() as int - '0' as int)
    }
}

/// A number in decimal is made of digits, begins with a zero only if it is zero, and
/// stands for the number.
pub proof fn law_decimals_stand_for_their_number(n: int)
    requires
        n >= 0,
    ensures
        ({
            let s = text::decimal(n);
            &&& s.len() > 0
            &&& forall|i: int| 0 <= i < s.len() ==> '0' <= #[trigger] s[i] && s[i] <= '9'
            &&& n > 0 ==> s[0] != '0'
            &&& value_of(s) == n
        }),
    decreases n,
{
    let s = text::decimal(n);
    if n < 10 {
        assert(s.drop_last() =~= Seq::empty());
        reveal_with_fuel(value_of, 2);
    } else {
        law_decimals_stand_for_their_number(n / 10);
        assert(s.drop_last() =~= text::decimal(n / 10));
    }
}

/// Rounding gives the nearest whole number, and of two that are as near the even
/// one.
pub proof fn law_rounding_goes_to_the_nearest(n: int, d: int)
    requires
        n >= 0,
        d > 0,
    ensures
        ({
            let q = numbers::half_even(n, d);
            &&& -d <= 2 * (q * d - n) <= d
            &&& 2 * (q * d - n) == d || 2 * (q * d - n) == -d ==> q % 2 == 0
            &&& q >= 0
        }),
{
    vstd::arithmetic::div_mod::lemma_fundamental_div_mod(n, d);
    vstd::arithmetic::div_mod::lemma_div_pos_is_pos(n, d);
    let f = n / d;
    assert((f + 1) * d == d * f + d) by (nonlinear_arith);
    assert(f * d == d * f) by (nonlinear_arith);
}

/// A number of up to 53 bits is kept as it is, and any other changes by less than
/// one part in as many.
pub proof fn law_few_bits_are_kept(n: int)
    requires
        n >= 0,
    ensures
        n < 0x20_0000_0000_0000 ==> numbers::nearest(n) == n,
        -n <= (numbers::nearest(n) - n) * 0x20_0000_0000_0000 <= n,
{
    let u = numbers::spacing(n, 1);
    numbers::lemma_spacing(n, 1);
    law_rounding_goes_to_the_nearest(n, u);
    if n < 0x20_0000_0000_0000 {
        assert(u == 1);
        assert(n / 1 == n && n % 1 == 0);
        assert(numbers::half_even(n, 1) == n);
        assert(numbers::nearest(n) == n * 1);
    } else {
        assert(u != 1);
    }
}

/// A size in words is, below 1024, the number of bytes; and else two decimals of the
/// largest unit that it reaches, rounded to the nearest hundredth.
pub proof fn law_sizes_in_words(b: int)
    requires
        0 <= b < 0x20_0000_0000_0000,
    ensures
        b < 1024 ==> report::human_text(b) == text::decimal(b) + " B"@,
        1024 <= b < 1048576 ==> in_hundredths(b, 1024, " KiB"@),
        1048576 <= b < 1073741824 ==> in_hundredths(b, 1048576, " MiB"@),
        1073741824 <= b < 1099511627776 ==> in_hundredths(b, 1073741824, " GiB"@),
        1099511627776 <= b < 1125899906842624 ==> in_hundredths(b, 1099511627776, " TiB"@),
        1125899906842624 <= b ==> in_hundredths(b, 1125899906842624, " PiB"@),
{
    law_few_bits_are_kept(b);
    lemma_units();
    reveal_with_fuel(report::unit_for, 8);
    lemma_hundredths(b, 1);
    lemma_hundredths(b, 2);
    lemma_hundredths(b, 3);
    lemma_hundredths(b, 4);
    lemma_hundredths(b, 5);
}

/// The size, as far as 53 bits tell it, is written as a whole number of hundredths of
/// the unit, and no other is nearer.
pub open spec fn in_hundredths(b: int, unit: int, name: Seq<char>) -> bool {
    exists|h: int| #[trigger] is_hundredths(b, unit, name, h)
}

pub open spec fn is_hundredths(b: int, unit: int, name: Seq<char>, h: int) -> bool {
    &&& h >= 0
    &&& -unit <= 2 * (h * unit - 100 * numbers::nearest(b)) <= unit
    &&& report::human_text(b) == text::decimal(h / 100) + seq![
        '.',
        (48 + h % 100 / 10) as char,
        (48 + h % 10) as char,
    ] + name
}

proof fn lemma_units()
    ensures
        report::unit(0) == 1,
        report::unit(1) == 1024,
        report::unit(2) == 1048576,
        report::unit(3) == 1073741824,
        report::unit(4) == 1099511627776,
        report::unit(5) == 1125899906842624,
        report::unit(6) == 1152921504606846976,
{
    reveal_with_fuel(report::unit, 7);
}

proof fn lemma_hundredths(b: int, i: int)
    requires
        0 <= b,
        1 <= i <= 6,
    ensures
        report::unit_for(numbers::nearest(b), 0) == i ==> in_hundredths(
            b,
            report::unit(i),
            report::unit_name(i),
        ),
{
    lemma_units();
    law_few_bits_are_kept(b);
    let r = numbers::nearest(b);
    let u = report::unit(i);
    assert(u > 0);
    let h = numbers::half_even(100 * r, u);
    law_rounding_goes_to_the_nearest(100 * r, u);
    if report::unit_for(r, 0) == i {
        assert(text::decimal(h / 100).push('.').push(text::digit(h % 100 / 10)).push(
            text::digit(h % 10),
        ) =~= text::decimal(h / 100) + seq![
            '.',
            (48 + h % 100 / 10) as char,
            (48 + h % 10) as char,
        ]);
        assert(is_hundredths(b, u, report::unit_name(i), h));
    }
}

/// The sizes beyond are rounded to 53 bits first.
pub proof fn law_large_sizes_in_words(b: int)
    requires
        0x20_0000_0000_0000 <= b,
    ensures
        numbers::nearest(b) < 1152921504606846976 ==> in_hundredths(b, 1125899906842624, " PiB"@),
        numbers::nearest(b) >= 1152921504606846976 ==> in_hundredths(
            b,
            1152921504606846976,
            " EiB"@,
        ),
{
    law_few_bits_are_kept(b);
    lemma_units();
    reveal_with_fuel(report::unit_for, 8);
    lemma_hundredths(b, 5);
    lemma_hundredths(b, 6);
}

/// A share in percent is at most one percent off, as far as 53 bits tell the part and
/// the whole.
pub proof fn law_percentages_are_close(part: int, whole: int)
    requires
        0 <= part,
        0 < whole,
        numbers::nearest(part) <= numbers::nearest(whole),
    ensures
        ({
            let a = numbers::nearest(part);
            let b = numbers::nearest(whole);
            -b <= numbers::percent(part, whole) * b - 100 * a <= b
        }),
        part == 0 ==> numbers::percent(part, whole) == 0,
{
    law_few_bits_are_kept(part);
    law_few_bits_are_kept(whole);
    let a = numbers::nearest(part);
    let b = numbers::nearest(whole);
    if a > 0 {
        let up = numbers::scaled_up(a, b);
        let t = lemma_scaled_up(a, b, 1, a);
        assert(up == a * t);
        assert(numbers::scaled_down(a, b) == b);
        assert(b / b == 1) by (nonlinear_arith)
            requires
                b > 0,
        ;
        assert(up / a == t) by (nonlinear_arith)
            requires
                up == a * t,
                a > 0,
        ;
        let q = numbers::half_even(up, b);
        law_rounding_goes_to_the_nearest(up, b);
        let h = numbers::nearest(100 * q);
        law_few_bits_are_kept(100 * q);
        let p = numbers::half_even(h * 1, t);
        assert(t >= 300) by (nonlinear_arith)
            requires
                a * t * 2 >= b * 0x20_0000_0000_0000,
                0 < a <= b,
        ;
        assert(q <= 0x20_0000_0000_0001) by (nonlinear_arith)
            requires
                2 * (q * b - up) <= b,
                up < b * 0x20_0000_0000_0000,
                b > 0,
        ;
        law_rounding_goes_to_the_nearest(h, t);
        assert(numbers::percent(part, whole) == p);
        lemma_close(a, b, t, up, q, h, p);
    }
}

proof fn lemma_close(a: int, b: int, t: int, up: int, q: int, h: int, p: int)
    requires
        0 < a <= b,
        t >= 300,
        up == a * t,
        -b <= 2 * (q * b - up) <= b,
        0 <= q <= 0x20_0000_0000_0001,
        -(100 * q) <= (h - 100 * q) * 0x20_0000_0000_0000 <= 100 * q,
        -t <= 2 * (p * t - h) <= t,
    ensures
        -b <= p * b - 100 * a <= b,
{
    let d = h - 100 * q;
    assert(-100 <= d <= 100);
    let e = 2 * (p * t - h);
    let f = 2 * (q * b - up);
    let g = p * b - 100 * a;
    // Twice the error, times `t`, in terms of the three roundings.
    assert(2 * (g * t) == b * e + 2 * (b * d) + 100 * f) by (nonlinear_arith)
        requires
            g == p * b - 100 * a,
            e == 2 * (p * t - h),
            d == h - 100 * q,
            f == 2 * (q * b - up),
            up == a * t,
    ;
    assert(b * e <= b * t && -(b * t) <= b * e) by (nonlinear_arith)
        requires
            -t <= e <= t,
            b > 0,
    ;
    assert(b * d <= 100 * b && -(100 * b) <= b * d) by (nonlinear_arith)
        requires
            -100 <= d <= 100,
            b > 0,
    ;
    assert(300 * b <= b * t) by (nonlinear_arith)
        requires
            t >= 300,
            b > 0,
    ;
    assert(-b <= g <= b) by (nonlinear_arith)
        requires
            2 * (g * t) <= 2 * (b * t),
            -(2 * (b * t)) <= 2 * (g * t),
            t > 0,
    ;
}

/// The scaled numerator is a multiple of it, and large enough.
proof fn lemma_scaled_up(a: int, b: int, m: int, n: int) -> (t: int)
    requires
        0 < a <= b,
        m > 0,
        n == a * m,
        n < b * 0x20_0000_0000_0000,
    ensures
        numbers::scaled_up(n, b) == a * t,
        a * t * 2 >= b * 0x20_0000_0000_0000,
        a * t < b * 0x20_0000_0000_0000,
        t > 0,
    decreases b * 0x20_0000_0000_0000 - n,
{
    assert(n > 0) by (nonlinear_arith)
        requires
            n == a * m,
            a > 0,
            m > 0,
    ;
    if 2 * n < b * 0x20_0000_0000_0000 {
        assert(2 * n == a * (2 * m)) by (nonlinear_arith)
            requires
                n == a * m,
        ;
        lemma_scaled_up(a, b, 2 * m, 2 * n)
    } else {
        m
    }
}

/// A text without a space is one word, and an empty one none.
pub proof fn law_a_text_without_spaces_is_a_word(s: Seq<char>)
    requires
        forall|i: int| 0 <= i < s.len() ==> !text::is_space(#[trigger] s[i]),
    ensures
        s.len() == 0 ==> text::words(s).len() == 0,
        s.len() > 0 ==> text::words(s) == seq![s],
    decreases s.len(),
{
    if s.len() > 0 {
        let f = s.drop_last();
        assert forall|i: int| 0 <= i < f.len() implies !text::is_space(#[trigger] f[i]) by {
            assert(f[i] == s[i]);
        }
        law_a_text_without_spaces_is_a_word(f);
        assert(!text::is_space(s[s.len() - 1]));
        if s.len() >= 2 {
            assert(!text::is_space(s[s.len() - 2]));
            assert(f.push(s.last()) =~= s);
            assert(text::words(s) =~= seq![s]);
        } else {
            assert(s =~= seq![s.last()]);
            assert(text::words(s) =~= seq![s]);
        }
    }
}

proof fn lemma_word_there(t: Seq<char>)
    requires
        t.len() > 0,
        !text::is_space(t.last()),
    ensures
        text::words(t).len() > 0,
    decreases t.len(),
{
    if t.len() >= 2 && !text::is_space(t[t.len() - 2]) {
        lemma_word_there(t.drop_last());
    }
}

/// A space parts what is before it from what is behind it, and nothing else does.
pub proof fn law_a_space_parts_the_words(s: Seq<char>, c: char, t: Seq<char>)
    requires
        text::is_space(c),
    ensures
        text::words(s.push(c) + t) == text::words(s) + text::words(t),
    decreases t.len(),
{
    let u = s.push(c) + t;
    if t.len() == 0 {
        assert(u =~= s.push(c));
        assert(u.drop_last() =~= s);
        assert(text::words(s) + text::words(t) =~= text::words(s));
    } else {
        let f = t.drop_last();
        law_a_space_parts_the_words(s, c, f);
        assert(u.drop_last() =~= s.push(c) + f);
        assert(u.last() == t.last());
        if text::is_space(t.last()) {
        } else if t.len() >= 2 && !text::is_space(t[t.len() - 2]) {
            assert(u[u.len() - 2] == t[t.len() - 2]);
            lemma_word_there(f);
            assert(text::words(u) =~= text::words(s) + text::words(t));
        } else {
            if t.len() == 1 {
                assert(u[u.len() - 2] == c);
            } else {
                assert(u[u.len() - 2] == t[t.len() - 2]);
            }
            assert(text::words(u) =~= text::words(s) + text::words(t));
        }
    }
}

/// The length of a text is that of its bytes, not of its characters.
pub proof fn law_lengths_are_in_bytes(s: Seq<char>)
    ensures
        text::byte_len(s) == vstd::utf8::encode_utf8(s).len(),
{
}

/// The line begins with the word.
pub open spec fn begins_with(line: Seq<char>, word: Seq<char>) -> bool {
    line == word || (line.len() > word.len() && line.take(word.len() as int) == word
        && line[word.len() as int] == ' ')
}

/// The word did not fit into line `k`.
pub open spec fn overflows(ls: Seq<Seq<char>>, k: int, word: Seq<char>, w: int) -> bool {
    begins_with(ls[k + 1], word) && text::byte_len(ls[k]) + 1 + text::byte_len(word) > w
}

/// No line is broken before it is full: the word at the start of the next one would
/// not have fitted into it.
pub proof fn law_lines_are_full(ws: Seq<Seq<char>>, n: int, w: int, k: int)
    requires
        0 <= n <= ws.len(),
        0 <= k,
        k + 1 < text::lines(ws, n, w).len(),
    ensures
        exists|m: int|
            0 <= m < n && #[trigger] overflows(text::lines(ws, n, w), k, ws[m], w),
    decreases n,
{
    let before = text::lines(ws, n - 1, w);
    let ls = text::lines(ws, n, w);
    let word = ws[n - 1];
    if ls.len() == before.len() + 1 && k + 1 == before.len() {
        assert(overflows(ls, k, ws[n - 1], w));
    } else {
        law_lines_are_full(ws, n - 1, w, k);
        let m = choose|m: int| 0 <= m < n - 1 && #[trigger] overflows(before, k, ws[m], w);
        assert(ls[k] == before[k]);
        if ls[k + 1] != before[k + 1] {
            let old_line = before[k + 1];
            let line = ls[k + 1];
            assert(line == old_line.push(' ') + word);
            if old_line == ws[m] {
                assert(line.take(ws[m].len() as int) =~= ws[m]);
            } else {
                assert(line.take(ws[m].len() as int) =~= old_line.take(ws[m].len() as int));
            }
        }
        assert(overflows(ls, k, ws[m], w));
    }
}

/// What a comparison says goes by its sign, and gives the size of the difference.
pub proof fn law_what_a_comparison_says(delta: int)
    ensures
        delta > 0 ==> report::explanation(delta) == "walk exceeds volume by "@ + report::human_text(
            delta,
        )
            + " — clone blocks counted once per file, plus system-volume blocks shared with the seal"@,
        delta <= 0 ==> report::explanation(delta) == "volume exceeds walk by "@
            + report::human_text(-delta)
            + " — snapshots, purgeable caches and filesystem metadata that no live file accounts for"@,
{
}

/// A hint gives the pinned bytes and their share in percent.
pub proof fn law_what_a_hint_says(pinned: int, physical: int)
    ensures
        report::hint_text(pinned, physical) == report::human_text(pinned) + " ("@ + text::decimal(
            numbers::percent(pinned, physical),
        )
            + "%) of allocated bytes are pinned by a snapshot or the sealed system volume. Deleting those files frees nothing until the snapshots expire — macOS keeps automatic local Time Machine snapshots by default."@,
{
}

/// A scan is compared with its volume just where its root is that of a volume whose
/// usage is known; below 63 bits the difference is that of the two sizes.
pub proof fn law_what_is_compared(r: ScanResult)
    ensures
        report::comparable(r) <==> r.root_is_volume_root && r.volume_used > 0,
        r.tree.nodes@[0].size.physical < 0x8000_0000_0000_0000 && r.volume_used
            < 0x8000_0000_0000_0000 ==> report::difference(r) == r.tree.nodes@[0].size.physical
            - r.volume_used,
{
}

/// Snapshots are blamed just where they pin more than a quarter of what is
/// allocated.
pub proof fn law_when_snapshots_are_blamed(r: ScanResult)
    ensures
        report::pinned_share(r) <==> 4 * r.tree.nodes@[0].size.shared_snapshot
            > r.tree.nodes@[0].size.physical && r.tree.nodes@[0].size.physical > 0,
{
}

} // verus!
