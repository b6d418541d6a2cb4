use boot_frames::boot::{boot_info_extent, kernel_extent, SectionExtent};
use boot_frames::vga::{Char, Color, ColorCode, Writer, BUFFER_HEIGHT, BUFFER_WIDTH};

#[test]
fn kernel_extent_spans_all_sections() {
    let sections = vec![
        SectionExtent { addr: 0x20_0000, size: 0x500 },
        SectionExtent { addr: 0x10_0000, size: 0x1000 },
        SectionExtent { addr: 0x18_0000, size: 0x10 },
    ];
    assert_eq!(kernel_extent(&sections), Some((0x10_0000, 0x20_0500)));
}

#[test]
fn kernel_extent_of_no_section_is_none() {
    assert_eq!(kernel_extent(&Vec::new()), None);
}

#[test]
fn kernel_extent_with_overflowing_section_is_none() {
    let sections = vec![SectionExtent { addr: 0x1000, size: 0x10 }, SectionExtent { addr: u64::MAX, size: 2 }];
    assert_eq!(kernel_extent(&sections), None);
}

#[test]
fn boot_info_extent_adds_total_size() {
    assert_eq!(boot_info_extent(0x1000, 0x200), Some((0x1000, 0x1200)));
    assert_eq!(boot_info_extent(usize::MAX, 1), None);
    assert_eq!(boot_info_extent(usize::MAX, 0), Some((usize::MAX, usize::MAX)));
}

#[test]
fn color_code_packs_background_high() {
    assert_eq!(ColorCode::new(Color::LightGreen, Color::Black), ColorCode(0x0a));
    assert_eq!(ColorCode::new(Color::White, Color::Blue), ColorCode(0x1f));
    assert_eq!(ColorCode::new(Color::Black, Color::White), ColorCode(0xf0));
}

#[test]
fn writer_puts_bytes_on_bottom_line() {
    let color = ColorCode::new(Color::Yellow, Color::Black);
    let mut w = Writer::new(color);
    w.write_byte(b'h');
    w.write_byte(b'i');
    assert_eq!(w.cell(BUFFER_HEIGHT - 1, 0), Char { ascii_char: b'h', color });
    assert_eq!(w.cell(BUFFER_HEIGHT - 1, 1), Char { ascii_char: b'i', color });
    assert_eq!(w.cell(BUFFER_HEIGHT - 1, 2), Char { ascii_char: b' ', color });
}

#[test]
fn writer_newline_scrolls_up() {
    let color = ColorCode::new(Color::White, Color::Black);
    let mut w = Writer::new(color);
    w.write_byte(b'x');
    w.write_byte(b'\n');
    assert_eq!(w.cell(BUFFER_HEIGHT - 2, 0), Char { ascii_char: b'x', color });
    assert_eq!(w.cell(BUFFER_HEIGHT - 1, 0), Char { ascii_char: b' ', color });
    w.write_byte(b'y');
    assert_eq!(w.cell(BUFFER_HEIGHT - 1, 0), Char { ascii_char: b'y', color });
}

#[test]
fn writer_wraps_full_line() {
    let color = ColorCode::new(Color::Cyan, Color::Black);
    let mut w = Writer::new(color);
    for _ in 0..BUFFER_WIDTH {
        w.write_byte(b'a');
    }
    w.write_byte(b'b');
    assert_eq!(w.cell(BUFFER_HEIGHT - 2, BUFFER_WIDTH - 1), Char { ascii_char: b'a', color });
    assert_eq!(w.cell(BUFFER_HEIGHT - 1, 0), Char { ascii_char: b'b', color });
    assert_eq!(w.cell(BUFFER_HEIGHT - 1, 1), Char { ascii_char: b' ', color });
}
