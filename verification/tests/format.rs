use tuiman::catalog::{Builder, Catalog, Ecosystem, Entry, FLAG_LIBRARY};
use tuiman::format::{decode, encode, DecodeError};
use tuiman::text::valid_package_name;

fn sample() -> Catalog {
    let mut b = Builder::new(1_790_000_000);
    b.push(&Entry {
        name: "lazygit",
        desc: "simple terminal UI for git commands",
        url: "https://github.com/jesseduffield/lazygit",
        category: "Development",
        language: "Go",
        license: "MIT",
        stars: Some(60_000),
        pushed_days: Some(20_700),
        flags: 0,
        packages: &[(Ecosystem::Brew, "lazygit"), (Ecosystem::Go, "github.com/jesseduffield/lazygit")],
    })
    .unwrap();
    b.push(&Entry {
        name: "ratatui",
        desc: "Rust library to build rich TUIs — with ünïcödé",
        url: "https://github.com/ratatui/ratatui",
        category: "Libraries",
        language: "Rust",
        license: "MIT",
        flags: FLAG_LIBRARY,
        ..Entry::default()
    })
    .unwrap();
    b.finish()
}

#[test]
fn roundtrip() {
    let c = sample();
    assert_eq!(decode(&encode(&c)).unwrap(), c);
    let empty = Builder::new(0).finish();
    assert_eq!(decode(&encode(&empty)).unwrap(), empty);
}

#[test]
fn rejects_wrong_magic_and_version() {
    let mut bytes = encode(&sample());
    assert_eq!(decode(b"nope"), Err(DecodeError::BadMagic));
    assert_eq!(
        decode(b"<!DOCTYPE html><html>...........................</html>"),
        Err(DecodeError::BadMagic)
    );
    bytes[4] = 9;
    assert_eq!(decode(&bytes), Err(DecodeError::UnsupportedVersion(9)));
}

#[test]
fn rejects_every_truncation_and_trailing_data() {
    let bytes = encode(&sample());
    for len in 0..bytes.len() {
        assert!(decode(&bytes[..len]).is_err(), "accepted truncation to {len}");
    }
    let mut longer = bytes;
    longer.push(0);
    assert_eq!(decode(&longer), Err(DecodeError::BadLength));
}

#[test]
fn huge_counts_do_not_allocate() {
    let mut bytes = encode(&Builder::new(0).finish());
    bytes[16..20].copy_from_slice(&u32::MAX.to_le_bytes());
    assert_eq!(decode(&bytes), Err(DecodeError::BadLength));
}

#[test]
fn single_byte_corruption_never_panics() {
    let bytes = encode(&sample());
    for i in 0..bytes.len() {
        for delta in [1u8, 0x80, 0xff] {
            let mut bad = bytes.clone();
            bad[i] = bad[i].wrapping_add(delta);
            if let Ok(c) = decode(&bad) {
                for row in c.rows() {
                    let _ = (c.name(row), c.desc(row), c.url(row), c.language(row), c.license(row));
                    let _ = c.category_name(c.category_id(row));
                    assert!(c.packages(row).iter().all(|(_, p)| valid_package_name(p)));
                }
            }
        }
    }
}

#[test]
fn rejects_hostile_strings() {
    let c = sample();
    let bytes = encode(&c);
    let arena_len = u32::from_le_bytes(bytes[36..40].try_into().unwrap()) as usize;
    let arena_at = bytes.len() - arena_len;
    let arena = std::str::from_utf8(&bytes[arena_at..]).unwrap();

    // The brew package name sits right before the go module path.
    let pkg_at = arena_at + arena.find("lazygitgithub.com").unwrap();
    let mut bad = bytes.clone();
    bad[pkg_at] = b'-';
    assert!(decode(&bad).is_err(), "package name starting with '-'");

    let mut bad = bytes;
    bad[arena_at + 1] = 0x1b;
    assert_eq!(decode(&bad), Err(DecodeError::Corrupt("control character in text")));
}

#[test]
fn header_counts_are_checked_against_the_tables() {
    let mut bytes = encode(&sample());
    // One language more than the file holds: the length no longer adds up.
    bytes[24] += 1;
    assert_eq!(decode(&bytes), Err(DecodeError::BadLength));
}

#[test]
fn short_input_with_the_magic_is_the_wrong_length() {
    assert_eq!(decode(b"TUIM\x01\x00"), Err(DecodeError::BadLength));
    assert_eq!(decode(b""), Err(DecodeError::BadMagic));
}
