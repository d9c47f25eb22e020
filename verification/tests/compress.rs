use ipbridge::compress::{
    compress_frame, decompress, decompress_payload, default_level, place_unpacked, read_header,
    starts_with_magic, write_frame, write_header, Codec, Compression, FLAG_COMPRESSED, HEADER_LEN,
    MAGIC,
};

const BUF_SIZE_REF: usize = 65_535;

const CODECS: [Codec; 3] = [Codec::Zlib, Codec::Gz, Codec::Zstd];

fn repetitive(len: usize) -> Vec<u8> {
    let mut v = Vec::with_capacity(len);
    while v.len() < len {
        v.extend_from_slice(b"abc123xyz789");
    }
    v.truncate(len);
    v
}

fn noise(len: usize) -> Vec<u8> {
    let mut data = vec![0u8; len];
    let mut state: u64 = 0x9E3779B97F4A7C15;
    for b in data.iter_mut() {
        state ^= state << 13;
        state ^= state >> 7;
        state ^= state << 17;
        *b = state as u8;
    }
    data
}

#[test]
fn roundtrip_all_codecs() {
    for codec in [Codec::Zlib, Codec::Gz, Codec::Zstd] {
        let data = repetitive(4096);
        let mut frame = Vec::new();
        compress_frame(Compression::new(codec, None), &data, &mut frame);
        assert_eq!(&frame[..4], &MAGIC);
        let mut out = vec![0u8; BUF_SIZE_REF];
        let n = decompress(&frame, &mut out).unwrap();
        assert_eq!(n, data.len());
        assert_eq!(&out[..n], &data[..]);
    }
}

#[test]
fn store_fallback_for_incompressible() {
    let mut data = vec![0u8; 512];
    let mut state: u64 = 0x9E3779B97F4A7C15;
    for b in data.iter_mut() {
        state ^= state << 13;
        state ^= state >> 7;
        state ^= state << 17;
        *b = state as u8;
    }
    let mut frame = Vec::new();
    compress_frame(Compression::default(), &data, &mut frame);
    assert_eq!(&frame[..4], &MAGIC, "store fallback must still be framed");
    let mut out = vec![0u8; BUF_SIZE_REF];
    let n = decompress(&frame, &mut out).unwrap();
    assert_eq!(n, data.len());
    assert_eq!(&out[..n], &data[..]);
}

#[test]
fn frame_always_has_magic() {
    let data = repetitive(64);
    let mut frame = Vec::new();
    compress_frame(Compression::default(), &data, &mut frame);
    assert_eq!(&frame[..4], &MAGIC);
    let mut out = vec![0u8; BUF_SIZE_REF];
    let n = decompress(&frame, &mut out).unwrap();
    assert_eq!(&out[..n], &data[..]);
}

#[test]
fn decompress_none_for_non_magic() {
    let mut out = vec![0u8; 64];
    assert_eq!(decompress(b"hello world", &mut out), None);
}

#[test]
fn decompress_rejects_bad_length() {
    let data = repetitive(100);
    let mut frame = Vec::new();
    compress_frame(Compression::default(), &data, &mut frame);
    frame[7] = 0xFF;
    let mut out = vec![0u8; BUF_SIZE_REF];
    assert_eq!(decompress(&frame, &mut out), None);
}

#[test]
fn decompress_rejects_oversized_output() {
    let data = repetitive(1000);
    let mut frame = Vec::new();
    compress_frame(Compression::default(), &data, &mut frame);
    frame[6] = 0xFF;
    frame[7] = 0xFF;
    let mut out = vec![0u8; 512];
    assert_eq!(decompress(&frame, &mut out), None);
}

#[test]
fn stored_frame_roundtrip() {
    let data = repetitive(100);
    let mut frame = Vec::new();
    compress_frame(Compression::new(Codec::Zstd, None), &data, &mut frame);
    let mut out = vec![0u8; BUF_SIZE_REF];
    let n = decompress(&frame, &mut out).unwrap();
    assert_eq!(&out[..n], &data[..]);
}

#[test]
fn level_defaults_per_codec() {
    assert_eq!(Compression::new(Codec::Zlib, None).level, 6);
    assert_eq!(Compression::new(Codec::Gz, None).level, 6);
    assert_eq!(Compression::new(Codec::Zstd, None).level, 3);
}

#[test]
fn level_validation() {
    assert!(Compression::new(Codec::Zlib, Some(9)).validate().is_ok());
    assert!(Compression::new(Codec::Zlib, Some(10)).validate().is_err());
    assert!(Compression::new(Codec::Zstd, Some(22)).validate().is_ok());
    assert!(Compression::new(Codec::Zstd, Some(23)).validate().is_err());
    assert!(Compression::new(Codec::Zstd, Some(0)).validate().is_err());
}

#[test]
fn codec_name_roundtrip() {
    for codec in [Codec::Zlib, Codec::Gz, Codec::Zstd] {
        assert_eq!(Codec::from_name(codec.name()), Some(codec));
    }
    assert_eq!(Codec::from_name("lz4"), None);
}

#[test]
fn level_affects_ratio() {
    let data = repetitive(4096);
    let low = Compression::new(Codec::Zlib, Some(1));
    let high = Compression::new(Codec::Zlib, Some(9));
    let mut f1 = Vec::new();
    let mut f9 = Vec::new();
    compress_frame(low, &data, &mut f1);
    compress_frame(high, &data, &mut f9);
    assert!(f9.len() <= f1.len(), "higher level should not be worse");
}

#[test]
fn every_codec_packs_and_unpacks_its_own_way() {
    let data = repetitive(4096);
    let packed: Vec<Vec<u8>> = CODECS
        .iter()
        .map(|codec| Compression::new(*codec, None).try_compress(&data).unwrap())
        .collect();
    for (i, codec) in CODECS.iter().enumerate() {
        assert!(packed[i].len() < data.len());
        assert_ne!(packed[i], data);
        let content = decompress_payload(*codec, &packed[i], data.len());
        assert_eq!(content, Some(data.clone()));
        for (j, other) in CODECS.iter().enumerate() {
            if i != j {
                assert_ne!(packed[i], packed[j]);
                assert_eq!(decompress_payload(*other, &packed[i], data.len()), None);
            }
        }
    }
    // A zlib stream starts with its window size, a gzip stream and a zstd frame with a magic.
    assert_eq!(packed[0][0], 0x78);
    assert_eq!(&packed[1][..2], &[0x1f, 0x8b]);
    assert_eq!(&packed[2][..4], &[0x28, 0xb5, 0x2f, 0xfd]);
}

#[test]
fn nothing_packs_to_something_that_unpacks_to_nothing() {
    for codec in CODECS {
        let packed = Compression::new(codec, None).try_compress(&[]).unwrap();
        assert!(!packed.is_empty());
        assert_eq!(decompress_payload(codec, &packed, 0), Some(Vec::new()));
    }
}

#[test]
fn unpacking_stops_at_the_room() {
    let data = repetitive(4096);
    for codec in [Codec::Zlib, Codec::Gz] {
        let packed = Compression::new(codec, None).try_compress(&data).unwrap();
        let content = decompress_payload(codec, &packed, 100);
        assert_eq!(content, Some(data[..100].to_vec()));
    }
    let packed = Compression::new(Codec::Zstd, None)
        .try_compress(&data)
        .unwrap();
    assert_eq!(decompress_payload(Codec::Zstd, &packed, 100), None);
}

#[test]
fn unpacking_refuses_noise() {
    for codec in CODECS {
        assert_eq!(decompress_payload(codec, &noise(64), 64), None);
    }
}

#[test]
fn packing_is_the_same_every_time() {
    let data = repetitive(3000);
    for codec in CODECS {
        let c = Compression::new(codec, None);
        assert_eq!(c.try_compress(&data), c.try_compress(&data));
    }
}

#[test]
fn codec_ids() {
    assert_eq!(Codec::Zlib.id(), 1);
    assert_eq!(Codec::Gz.id(), 2);
    assert_eq!(Codec::Zstd.id(), 3);
    for codec in CODECS {
        assert_eq!(Codec::from_id(codec.id()), Some(codec));
    }
    assert_eq!(Codec::from_id(0), None);
    assert_eq!(Codec::from_id(4), None);
}

#[test]
fn default_is_zlib_at_its_standard_level() {
    let c = Compression::default();
    assert_eq!(c.codec, Codec::Zlib);
    assert_eq!(c.level, 6);
    for codec in CODECS {
        assert!(Compression::new(codec, Some(default_level(codec)))
            .validate()
            .is_ok());
    }
}

#[test]
fn level_error_names_level_codec_and_range() {
    assert_eq!(
        Compression::new(Codec::Gz, Some(-3)).validate(),
        Err("compression level -3 out of range for gz (allowed 1-9)".to_string())
    );
    assert_eq!(
        Compression::new(Codec::Zstd, Some(23)).validate(),
        Err("compression level 23 out of range for zstd (allowed 1-22)".to_string())
    );
    assert_eq!(
        Compression::new(Codec::Zlib, Some(i32::MIN)).validate(),
        Err("compression level -2147483648 out of range for zlib (allowed 1-9)".to_string())
    );
    assert_eq!(Compression::new(Codec::Zlib, Some(1)).validate(), Ok(()));
}

#[test]
fn stored_frame_layout() {
    let mut frame = vec![9, 9, 9];
    compress_frame(Compression::new(Codec::Gz, None), b"hi", &mut frame);
    assert_eq!(frame, b"IPBZ\x00\x02\x02\x00\x02\x00hi");
    compress_frame(Compression::new(Codec::Zstd, None), b"", &mut frame);
    assert_eq!(frame, b"IPBZ\x00\x03\x00\x00\x00\x00");
}

#[test]
fn packed_frame_layout() {
    let data = repetitive(4096);
    let c = Compression::new(Codec::Zlib, None);
    let packed = c.try_compress(&data).unwrap();
    let mut frame = Vec::new();
    compress_frame(c, &data, &mut frame);
    assert_eq!(&frame[..4], b"IPBZ");
    assert_eq!(frame[4], FLAG_COMPRESSED);
    assert_eq!(frame[5], 1);
    assert_eq!(&frame[6..8], &[0x00, 0x10]);
    assert_eq!(&frame[8..10], &(packed.len() as u16).to_le_bytes());
    assert_eq!(&frame[10..], &packed[..]);
    assert!(frame.len() < data.len());
}

#[test]
fn header_is_appended() {
    let mut out = vec![7];
    write_header(&mut out, Codec::Zstd, true, 0x1234, 0x12345);
    assert_eq!(out, b"\x07IPBZ\x01\x03\x34\x12\x45\x23");
    let header = read_header(&out[1..]).unwrap();
    assert_eq!(header.codec, Codec::Zstd);
    assert!(header.compressed);
    assert_eq!(header.orig_len, 0x1234);
    assert_eq!(header.pay_len, 0x2345);
    assert_eq!(read_header(&out), None);
    assert_eq!(read_header(&out[1..10]), None);
}

#[test]
fn packing_must_save_more_than_the_header() {
    let input = repetitive(40);
    let mut out = Vec::new();
    write_frame(Codec::Zlib, &input, Some(vec![5; 29]), &mut out);
    assert_eq!(out.len(), HEADER_LEN + 29);
    assert_eq!(out[4], 1);
    write_frame(Codec::Zlib, &input, Some(vec![5; 30]), &mut out);
    assert_eq!(out.len(), HEADER_LEN + 40);
    assert_eq!(out[4], 0);
    assert_eq!(&out[HEADER_LEN..], &input[..]);
    write_frame(Codec::Zlib, &input, None, &mut out);
    assert_eq!(out.len(), HEADER_LEN + 40);
}

#[test]
fn frame_is_never_much_longer_than_its_input() {
    for codec in CODECS {
        for len in [0, 1, 4, 10, 100, 5000, 65_535] {
            for data in [repetitive(len), noise(len)] {
                let mut frame = Vec::new();
                compress_frame(Compression::new(codec, None), &data, &mut frame);
                assert!(frame.len() <= data.len() + HEADER_LEN);
                let mut out = vec![0u8; len];
                assert_eq!(decompress(&frame, &mut out), Some(len));
                assert_eq!(out, data);
            }
        }
    }
}

#[test]
fn input_too_long_for_the_header_is_stored() {
    let data = repetitive(65_536);
    let mut frame = Vec::new();
    compress_frame(Compression::default(), &data, &mut frame);
    assert_eq!(frame.len(), HEADER_LEN + 65_536);
    assert_eq!(&frame[..10], b"IPBZ\x00\x01\x00\x00\x00\x00");
}

#[test]
fn decompress_leaves_the_rest_of_the_buffer() {
    let mut out = vec![9u8; 5];
    assert_eq!(
        decompress(b"IPBZ\x00\x02\x02\x00\x02\x00hi and more", &mut out),
        Some(2)
    );
    assert_eq!(out, b"hi\x09\x09\x09");
}

#[test]
fn decompress_refuses_what_is_no_frame() {
    let mut out = vec![9u8; 64];
    let refused: [&[u8]; 8] = [
        b"",
        b"IPBZ",
        b"IPBZ\x00\x02\x02\x00\x02",
        b"IPBR\x00\x02\x02\x00\x02\x00hi",
        b"IPBZ\x00\x04\x02\x00\x02\x00hi",
        b"IPBZ\x00\x02\x02\x00\x03\x00hi",
        b"IPBZ\x00\x02\x01\x00\x02\x00hi",
        b"IPBZ\x01\x02\x02\x00\x02\x00hi",
    ];
    for input in refused {
        assert_eq!(decompress(input, &mut out), None);
        assert_eq!(out, vec![9u8; 64]);
    }
    // Other flags than the first are not looked at.
    assert_eq!(
        decompress(b"IPBZ\x02\x02\x02\x00\x02\x00hi", &mut out),
        Some(2)
    );
}

#[test]
fn decompress_refuses_content_of_another_length() {
    let data = repetitive(4096);
    for codec in CODECS {
        let mut frame = Vec::new();
        compress_frame(Compression::new(codec, None), &data, &mut frame);
        let mut out = vec![0u8; BUF_SIZE_REF];
        frame[6] = 0x01;
        assert_eq!(decompress(&frame, &mut out), None, "longer than announced");
    }
}

#[test]
fn magic_is_recognised() {
    assert!(starts_with_magic(b"IPBZ"));
    assert!(starts_with_magic(b"IPBZ and more"));
    assert!(!starts_with_magic(b"IPB"));
    assert!(!starts_with_magic(b"IPBR"));
    assert!(!starts_with_magic(b" IPBZ"));
}

#[test]
fn unpacked_content_is_placed_where_it_fits() {
    let mut out = vec![9u8; 4];
    assert_eq!(place_unpacked(None, 2, &mut out), None);
    assert_eq!(place_unpacked(Some(vec![1, 2, 3]), 2, &mut out), None);
    assert_eq!(out, vec![9, 9, 9, 9]);
    assert_eq!(place_unpacked(Some(vec![1, 2]), 2, &mut out), Some(2));
    assert_eq!(out, vec![1, 2, 9, 9]);
}

#[test]
fn packing_better_never_makes_the_frame_longer() {
    let input = repetitive(60);
    let mut lengths = Vec::new();
    for packed in 0..80 {
        let mut out = Vec::new();
        write_frame(Codec::Gz, &input, Some(vec![5; packed]), &mut out);
        lengths.push(out.len());
    }
    assert!(lengths.windows(2).all(|pair| pair[0] <= pair[1]));
    assert_eq!(lengths[0], HEADER_LEN);
    assert_eq!(lengths[79], HEADER_LEN + 60);
}
