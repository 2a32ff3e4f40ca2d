use disk_scanner::numbers::{divide, percentage, round};
use disk_scanner::report::{human, SnapshotHint};
use disk_scanner::text::{chars_of, digit_of, push_decimal, string_of, wrap};

fn human_in_floats(b: u64) -> String {
    const U: [&str; 7] = ["B", "KiB", "MiB", "GiB", "TiB", "PiB", "EiB"];
    let mut v = b as f64;
    let mut i = 0;
    while v >= 1024.0 && i < U.len() - 1 {
        v /= 1024.0;
        i += 1;
    }
    if i == 0 {
        format!("{} {}", b, U[0])
    } else {
        format!("{:.2} {}", v, U[i])
    }
}

fn samples() -> Vec<u64> {
    let mut v: Vec<u64> = vec![0, 1, 999, 1000, 1023, 1024, 1025, 1030, 1034, 1029, 5 * 1024 / 2, u64::MAX];
    for shift in 0..64 {
        let p = 1u64 << shift;
        for d in 0..4u64 {
            v.push(p.wrapping_add(d));
            v.push(p.wrapping_sub(d));
            v.push(p.wrapping_add(p >> 1).wrapping_add(d));
            v.push(p.wrapping_add(p >> 7));
            v.push(p.wrapping_add(p >> 3));
        }
    }
    let mut x: u64 = 0x9E3779B97F4A7C15;
    for i in 0..20000 {
        x ^= x << 13;
        x ^= x >> 7;
        x ^= x << 17;
        v.push(x >> (i % 64));
    }
    v
}

#[test]
fn sizes_read_as_in_floating_point() {
    for b in samples() {
        assert_eq!(human(b), human_in_floats(b), "{b}");
    }
    assert_eq!(human(0), "0 B");
    assert_eq!(human(1023), "1023 B");
    assert_eq!(human(1024), "1.00 KiB");
    assert_eq!(human(1536), "1.50 KiB");
    assert_eq!(human(1048575), "1024.00 KiB");
    assert_eq!(human(64 << 20), "64.00 MiB");
    assert_eq!(human(500_000_000_000), "465.66 GiB");
    assert_eq!(human(u64::MAX), "16.00 EiB");
}

#[test]
fn percentages_read_as_in_floating_point() {
    let v = samples();
    let check = |a: u64, b: u64| {
        let f = if b == 0 { 0.0 } else { a as f64 / b as f64 };
        assert_eq!(percentage(a, b).to_string(), format!("{:.0}", f * 100.0), "{a} of {b}");
    };
    for w in v.windows(2) {
        check(w[0], w[1]);
        check(w[0].min(w[1]), w[0].max(w[1]));
    }
    for b in 1..=400u64 {
        for a in 0..=b {
            check(a, b);
        }
    }
    check(u64::MAX, 1);
    check(1, u64::MAX);
    check(5, 0);
}

#[test]
fn rounding_to_significant_bits() {
    for b in samples() {
        assert_eq!(round(b as u128), b as f64 as u128);
    }
    assert_eq!(round((1 << 53) + 1), 1 << 53);
    assert_eq!(round((1 << 53) + 3), (1 << 53) + 4);
    assert_eq!(divide(5, 2), 2);
    assert_eq!(divide(7, 2), 4);
    assert_eq!(divide(8, 3), 3);
}

#[test]
fn a_hint_in_words() {
    let h = SnapshotHint { likely: true, pinned: 3 << 30, physical: 4 << 30 };
    assert_eq!(
        h.message().unwrap(),
        "3.00 GiB (75%) of allocated bytes are pinned by a snapshot or the sealed system volume. Deleting those \
         files frees nothing until the snapshots expire — macOS keeps automatic local Time Machine snapshots by \
         default."
    );
    assert_eq!(SnapshotHint { likely: false, ..h }.message(), None);
}

#[test]
fn numbers_in_decimal() {
    for n in [0u128, 7, 10, 99, 100, 12345678901234567890, u128::MAX] {
        let mut s = String::from("n=");
        push_decimal(&mut s, n);
        assert_eq!(s, format!("n={n}"));
    }
    assert_eq!(digit_of(9), '9');
}

#[test]
fn characters_and_back() {
    let c = chars_of("aé–ﬁ");
    assert_eq!(c, vec!['a', 'é', '–', 'ﬁ']);
    assert_eq!(string_of(&c), "aé–ﬁ");
}

fn wrap_by_hand(s: &str, w: usize) -> Vec<String> {
    let mut out = Vec::new();
    let mut line = String::new();
    for word in s.split_whitespace() {
        if !line.is_empty() && line.len() + 1 + word.len() > w {
            out.push(std::mem::take(&mut line));
        }
        if !line.is_empty() {
            line.push(' ');
        }
        line.push_str(word);
    }
    if !line.is_empty() {
        out.push(line);
    }
    out
}

#[test]
fn lines_are_wrapped_between_words() {
    assert_eq!(wrap("the quick brown fox", 10), vec!["the quick", "brown fox"]);
    assert_eq!(wrap("  a \t b\n\nc  ", 3), vec!["a b", "c"]);
    assert_eq!(wrap("", 5), Vec::<String>::new());
    assert_eq!(wrap(" \n ", 5), Vec::<String>::new());
    assert_eq!(wrap("longword is long", 4), vec!["longword", "is", "long"]);
    assert_eq!(wrap("é é é", 5), vec!["é é", "é"]);
    assert_eq!(wrap("a b", 0), vec!["a", "b"]);
    let text = "volume exceeds walk by 1.00 GiB — snapshots, purgeable caches and filesystem metadata that no live \
                file accounts for";
    for w in 0..130 {
        assert_eq!(wrap(text, w), wrap_by_hand(text, w));
    }
}

#[test]
fn wrapped_lines_keep_the_words_and_the_width() {
    let text = "Deleting those files frees nothing until the snapshots expire";
    for w in 1..70 {
        let lines = wrap(text, w);
        assert_eq!(lines.join(" "), text);
        for l in &lines {
            assert!(l.len() <= w || !l.contains(' '));
        }
    }
}

#[test]
fn every_white_space_parts_words() {
    for u in 0..=0x10ffffu32 {
        if let Some(c) = char::from_u32(u) {
            let s: String = ['x', c, 'y'].iter().collect();
            let parts = if c.is_whitespace() { 2 } else { 1 };
            assert_eq!(wrap(&s, 0).len(), parts, "{u:x}");
        }
    }
}
