//! Numbers as text and bytes.

use fifo_gpu::bytes::{push_i32, push_le, read_i32, read_u32, read_u64};
use fifo_gpu::order::{sorted_i32, sorted_u64};
use fifo_gpu::text::{chars_of, parse_i32, parse_i64, parse_u32, parse_u64, push_int, push_nat, push_padded};

fn padded(n: i64, width: u64) -> String {
    let mut s = String::from("<");
    push_padded(&mut s, n, width);
    s
}

#[test]
fn numbers_are_written() {
    let mut s = String::new();
    push_nat(&mut s, 0);
    push_nat(&mut s, u64::MAX);
    assert_eq!(s, "018446744073709551615");
    let mut s = String::from("x");
    push_int(&mut s, i64::MIN);
    assert_eq!(s, "x-9223372036854775808");
    for n in [0, 7, -7, 123_456, -123_456, i64::MAX, i64::MIN] {
        for width in [0, 1, 5, 8, 30] {
            assert_eq!(padded(n, width), format!("<{:0w$}", n, w = width as usize));
        }
    }
}

#[test]
fn numbers_are_read_as_std_reads_them() {
    let texts = [
        "", "0", "-0", "+0", "7", "-7", "+7", "007", "-", "+", "--1", "+-1", "1 ", " 1", "1x", "x",
        "2147483647", "2147483648", "-2147483648", "-2147483649", "4294967295", "4294967296",
        "9223372036854775807", "9223372036854775808", "-9223372036854775808", "-9223372036854775809",
        "18446744073709551615", "18446744073709551616", "99999999999999999999999",
    ];
    for t in texts {
        let cs = chars_of(t);
        let n = cs.len();
        assert_eq!(parse_i64(&cs, 0, n), t.parse::<i64>().ok(), "{t}");
        assert_eq!(parse_u64(&cs, 0, n), t.parse::<u64>().ok(), "{t}");
        assert_eq!(parse_u32(&cs, 0, n), t.parse::<u32>().ok(), "{t}");
        assert_eq!(parse_i32(&cs, 0, n), t.parse::<i32>().ok(), "{t}");
    }
    let cs = chars_of("ab12cd");
    assert_eq!(parse_u64(&cs, 2, 4), Some(12));
}

#[test]
fn bytes_are_little_endian() {
    let mut v = vec![9u8];
    push_le(&mut v, 0x0102_0304_0506_0708, 8);
    push_le(&mut v, 0xdead_beef, 4);
    push_i32(&mut v, -2);
    assert_eq!(v, vec![9, 8, 7, 6, 5, 4, 3, 2, 1, 0xef, 0xbe, 0xad, 0xde, 0xfe, 0xff, 0xff, 0xff]);
    assert_eq!(read_u64(&v, 1), 0x0102_0304_0506_0708);
    assert_eq!(read_u32(&v, 9), 0xdead_beef);
    assert_eq!(read_i32(&v, 13), -2);
}

#[test]
fn numbers_are_sorted() {
    assert_eq!(sorted_i32(&vec![3, -1, 2, 3, 0]), vec![-1, 0, 2, 3, 3]);
    assert_eq!(sorted_u64(&vec![5, 4, 4, u64::MAX, 0]), vec![0, 4, 4, 5, u64::MAX]);
    assert_eq!(sorted_i32(&Vec::new()), Vec::<i32>::new());
    let v: Vec<u64> = (0..1000).map(|i| (i * 7919) % 1000).collect();
    assert_eq!(sorted_u64(&v), (0..1000).collect::<Vec<u64>>());
}
