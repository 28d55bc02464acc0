use pixel_asm::convert::{generate_raw_data, generate_raw_data_seeded, CAPACITY_ERROR_MESSAGE, FORMAT_ERROR_MESSAGE};
use pixel_asm::link::{decode_chain, link_entries, next_slot, pack_entry, shuffled_order, unpack_entry};
use pixel_asm::listing::{hex_char, render_listing};
use pixel_asm::quantize::{color_step, get_closest_color, terminal_color};
use pixel_asm::scanner::{scan_rows, AsmEntry, RowScanner};

fn run(color: u8, count: u8) -> AsmEntry {
    AsmEntry { color_bg: color, color_fg: if color == 0 { 1 } else { 0 }, repeat: count, character: 0x20 }
}

fn row_end() -> AsmEntry {
    AsmEntry { color_bg: 0, color_fg: 0, repeat: 1, character: 0x0a }
}

fn parse_listing(text: &str) -> Vec<u64> {
    let mut lines = text.lines();
    assert_eq!(lines.next(), Some(".section .text"));
    assert_eq!(lines.next(), Some("MESSAGE:"));
    let mut out = Vec::new();
    for line in lines {
        let hex = line.strip_prefix("    .quad 0x").expect("quad line");
        assert_eq!(hex.len(), 16);
        out.push(u64::from_str_radix(hex, 16).unwrap());
    }
    out
}

fn pixels(rgb: &[(u8, u8, u8)]) -> Vec<u8> {
    let mut v = Vec::new();
    for &(r, g, b) in rgb {
        v.extend_from_slice(&[r, g, b, 255]);
    }
    v
}

#[test]
fn closest_color_levels_and_ties() {
    assert_eq!(get_closest_color(0), 0);
    assert_eq!(get_closest_color(47), 0);
    assert_eq!(get_closest_color(48), 1);
    assert_eq!(get_closest_color(95), 1);
    assert_eq!(get_closest_color(115), 1);
    assert_eq!(get_closest_color(116), 2);
    assert_eq!(get_closest_color(155), 2);
    assert_eq!(get_closest_color(156), 3);
    assert_eq!(get_closest_color(195), 3);
    assert_eq!(get_closest_color(235), 4);
    assert_eq!(get_closest_color(236), 5);
    assert_eq!(get_closest_color(255), 5);
}

#[test]
fn closest_color_is_nearest_for_every_byte() {
    for v in 0..=255u8 {
        let i = get_closest_color(v);
        assert!(i <= 5);
        assert_eq!(get_closest_color(v), i);
        let d = |k: usize| (color_step(k) as i32 - v as i32).abs();
        for k in 0..6usize {
            assert!(d(i as usize) <= d(k));
            if k < i as usize {
                assert!(d(k) > d(i as usize));
            }
        }
    }
}

#[test]
fn terminal_color_formula() {
    assert_eq!(terminal_color(0, 0, 0), 16);
    assert_eq!(terminal_color(255, 255, 255), 231);
    assert_eq!(terminal_color(95, 135, 175), 16 + 36 + 12 + 3);
    assert_eq!(terminal_color(255, 0, 0), 196);
    for r in (0..=255u8).step_by(17) {
        for g in (0..=255u8).step_by(51) {
            let c = terminal_color(r, g, 200);
            assert!((16..=231).contains(&c));
            assert_eq!(c, 16 + 36 * get_closest_color(r) + 6 * get_closest_color(g) + 4);
        }
    }
}

#[test]
fn single_black_pixel_listing() {
    let r = generate_raw_data(&[0, 0, 0, 255], 1, 1);
    assert_eq!(r.status, 0);
    assert_eq!(
        r.message,
        ".section .text\nMESSAGE:\n    .quad 0x1000000000010120\n    .quad 0x000000000000010a\n"
    );
}

#[test]
fn single_black_pixel_entries() {
    let entries = scan_rows(&[0, 0, 0, 255], 1, 1);
    assert_eq!(entries, vec![run(16, 1), row_end()]);
    let packed = link_entries(&entries, &vec![1]);
    assert_eq!(packed, vec![0x1000000000010120, 0x000000000000010a]);
}

#[test]
fn two_colour_row_entries_and_orders() {
    let data = pixels(&[(0, 0, 0), (255, 255, 255)]);
    let entries = scan_rows(&data, 2, 1);
    assert_eq!(entries, vec![run(16, 1), run(231, 1), row_end()]);
    for order in [vec![1u32, 2], vec![2u32, 1]] {
        let packed = link_entries(&entries, &order);
        assert_eq!(packed.len(), 3);
        assert_eq!(next_slot(packed[0]), order[0]);
        assert_eq!(unpack_entry(packed[0]), entries[0]);
        assert_eq!(decode_chain(&packed), Some(entries.clone()));
    }
    let packed = link_entries(&entries, &vec![2, 1]);
    assert_eq!(packed, vec![pack_entry(&entries[0], 2), pack_entry(&entries[2], 0), pack_entry(&entries[1], 1)]);
}

#[test]
fn two_colour_row_listing_decodes() {
    let data = pixels(&[(0, 0, 0), (255, 255, 255)]);
    let r = generate_raw_data(&data, 2, 1);
    assert_eq!(r.status, 0);
    let packed = parse_listing(&r.message);
    assert_eq!(packed.len(), 3);
    assert_eq!(decode_chain(&packed), Some(vec![run(16, 1), run(231, 1), row_end()]));
}

#[test]
fn long_run_is_split_at_255() {
    let data = pixels(&vec![(255, 0, 0); 600]);
    let entries = scan_rows(&data, 600, 1);
    assert_eq!(entries, vec![run(196, 255), run(196, 255), run(196, 90), row_end()]);
    let data = pixels(&vec![(255, 0, 0); 510]);
    let entries = scan_rows(&data, 510, 1);
    assert_eq!(entries, vec![run(196, 255), run(196, 255), row_end()]);
    let data = pixels(&vec![(255, 0, 0); 256]);
    let entries = scan_rows(&data, 256, 1);
    assert_eq!(entries, vec![run(196, 255), run(196, 1), row_end()]);
}

#[test]
fn rows_sum_to_width_with_one_row_end_each() {
    let rgb = [
        (0, 0, 0), (0, 0, 0), (255, 255, 255), (10, 10, 10),
        (95, 95, 95), (95, 95, 95), (95, 95, 95), (95, 95, 95),
        (255, 0, 0), (0, 255, 0), (0, 0, 255), (255, 0, 0),
    ];
    let entries = scan_rows(&pixels(&rgb), 4, 3);
    assert_eq!(
        entries,
        vec![
            run(16, 2), run(231, 1), run(16, 1), row_end(),
            run(59, 4), row_end(),
            run(196, 1), run(46, 1), run(21, 1), run(196, 1), row_end(),
        ]
    );
    let mut sum = 0u32;
    let mut rows = 0;
    for e in &entries {
        if e.character == 0x0a {
            assert_eq!(sum, 4);
            sum = 0;
            rows += 1;
        } else {
            sum += e.repeat as u32;
        }
    }
    assert_eq!(rows, 3);
}

#[test]
fn row_state_resets_between_rows() {
    let data = pixels(&[(0, 0, 0), (0, 0, 0)]);
    let entries = scan_rows(&data, 1, 2);
    assert_eq!(entries, vec![run(16, 1), row_end(), run(16, 1), row_end()]);
}

#[test]
fn row_scanner_by_hand() {
    let mut s = RowScanner::new();
    s.push_pixel(0);
    s.push_pixel(0);
    s.push_pixel(40);
    s.end_row();
    s.end_row();
    assert_eq!(s.into_entries(), vec![run(0, 2), run(40, 1), row_end(), row_end()]);
}

#[test]
fn wrong_buffer_length_is_format_error() {
    for (data, w, h) in [
        (vec![0u8; 7], 1, 2),
        (vec![0u8; 12], 2, 2),
        (vec![0u8; 16], 1, 2),
        (vec![0u8; 3], 1, 1),
        (vec![], 1, 1),
        (vec![], 0, 0),
        (vec![0u8; 4], 0, 1),
        (vec![0u8; 4], 1, -1),
        (vec![0u8; 4], -1, -1),
    ] {
        let r = generate_raw_data(&data, w, h);
        assert_eq!(r.status, -1);
        assert_eq!(r.message, FORMAT_ERROR_MESSAGE);
    }
    assert_ne!(FORMAT_ERROR_MESSAGE, CAPACITY_ERROR_MESSAGE);
}

#[test]
fn shuffled_order_is_a_permutation() {
    for n in [1usize, 2, 3, 10, 100] {
        let mut order = shuffled_order(n, 7 + n as u64);
        assert_eq!(order.len(), n - 1);
        order.sort();
        assert_eq!(order, (1..n as u32).collect::<Vec<u32>>());
    }
}

#[test]
fn generated_listing_round_trips_through_decode() {
    let rgb: Vec<(u8, u8, u8)> = (0..60u32).map(|i| ((i * 37) as u8, (i * 11) as u8, if i % 3 == 0 { 0 } else { 200 })).collect();
    let data = pixels(&rgb);
    let entries = scan_rows(&data, 12, 5);
    for _ in 0..5 {
        let r = generate_raw_data(&data, 12, 5);
        assert_eq!(r.status, 0);
        let packed = parse_listing(&r.message);
        assert_eq!(packed.len(), entries.len());
        assert_eq!(unpack_entry(packed[0]), entries[0]);
        assert_eq!(decode_chain(&packed), Some(entries.clone()));
    }
}

#[test]
fn pack_layout_and_unpack() {
    let e = AsmEntry { color_bg: 0xab, color_fg: 0x01, repeat: 0x7f, character: 0x20 };
    let p = pack_entry(&e, 0xdeadbeef);
    assert_eq!(p, 0xab01_dead_beef_7f20);
    assert_eq!(next_slot(p), 0xdeadbeef);
    assert_eq!(unpack_entry(p), e);
}

#[test]
fn decode_rejects_broken_chains() {
    assert_eq!(decode_chain(&vec![]), None);
    let a = pack_entry(&run(16, 1), 0);
    let b = pack_entry(&run(17, 1), 5);
    assert_eq!(decode_chain(&vec![a, a]), None);
    assert_eq!(decode_chain(&vec![b, a]), None);
    assert_eq!(decode_chain(&vec![a]), Some(vec![run(16, 1)]));
}

#[test]
fn listing_renders_zero_padded_lowercase_hex() {
    assert_eq!(render_listing(&vec![]), ".section .text\nMESSAGE:\n");
    assert_eq!(
        render_listing(&vec![0x0123456789abcdef, 0, u64::MAX]),
        ".section .text\nMESSAGE:\n    .quad 0x0123456789abcdef\n    .quad 0x0000000000000000\n    .quad 0xffffffffffffffff\n"
    );
    assert_eq!(hex_char(0), '0');
    assert_eq!(hex_char(9), '9');
    assert_eq!(hex_char(10), 'a');
    assert_eq!(hex_char(15), 'f');
}

#[test]
fn shuffled_order_depends_on_seed_alone() {
    assert_eq!(shuffled_order(50, 42), shuffled_order(50, 42));
    let identity: Vec<u32> = (1..100).collect();
    assert!((0..4u64).any(|seed| shuffled_order(100, seed) != identity));
}

#[test]
fn seeded_conversion_is_reproducible() {
    let rgb: Vec<(u8, u8, u8)> = (0..40u32).map(|i| ((i * 53) as u8, 0, (i * 7) as u8)).collect();
    let data = pixels(&rgb);
    let a = generate_raw_data_seeded(&data, 8, 5, 1234);
    let b = generate_raw_data_seeded(&data, 8, 5, 1234);
    assert_eq!(a.status, 0);
    assert_eq!(a.message, b.message);
    let packed = parse_listing(&a.message);
    assert_eq!(decode_chain(&packed), Some(scan_rows(&data, 8, 5)));
    let r = generate_raw_data_seeded(&data, 8, 4, 1234);
    assert_eq!(r.status, -1);
    assert_eq!(r.message, FORMAT_ERROR_MESSAGE);
}
