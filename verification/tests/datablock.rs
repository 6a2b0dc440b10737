use mrc_volume::datablock::{
    read_data_as_4bit_packed, read_data_as_complex_i16, read_data_as_complex_i32,
    read_data_as_f16, read_data_as_i16, read_data_as_i32, read_data_as_i8, read_data_as_u16,
    read_data_block, SampleArray,
};
use mrc_volume::error::DecodeError;
use mrc_volume::grid::{new_complex_grid, new_real_grid, set_cell, ComplexSample};
use mrc_volume::header::MRCHeader;
use mrc_volume::rows::{next_nibble, NibbleState};
use mrc_volume::stream::ByteStream;

fn header(nx: i32, ny: i32, nz: i32, mode: i32) -> MRCHeader {
    let mut header = MRCHeader::new();
    header.nx = nx;
    header.ny = ny;
    header.nz = nz;
    header.mode = mode;
    header
}

fn as_real(array: SampleArray) -> Vec<Vec<Vec<f32>>> {
    match array {
        SampleArray::Real(data) => data
            .into_iter()
            .map(|plane| {
                plane.into_iter().map(|row| row.into_iter().map(f32::from_bits).collect()).collect()
            })
            .collect(),
        SampleArray::Complex(_) => panic!("complex samples where real ones were expected"),
    }
}

fn as_complex(array: SampleArray) -> Vec<Vec<Vec<(f32, f32)>>> {
    match array {
        SampleArray::Complex(data) => data
            .into_iter()
            .map(|plane| {
                plane
                    .into_iter()
                    .map(|row| {
                        row.into_iter()
                            .map(|c| (f32::from_bits(c.re), f32::from_bits(c.im)))
                            .collect()
                    })
                    .collect()
            })
            .collect(),
        SampleArray::Real(_) => panic!("real samples where complex ones were expected"),
    }
}

fn decode(bytes: &[u8], nx: i32, ny: i32, nz: i32, mode: i32) -> Result<SampleArray, DecodeError> {
    let mut stream = ByteStream::new(bytes);
    read_data_block(&mut stream, &header(nx, ny, nz, mode))
}

fn block_bytes(mode: i32, nx: usize, ny: usize, nz: usize) -> usize {
    match mode {
        0 => nx * ny * nz,
        1 | 5 | 6 => 2 * nx * ny * nz,
        2 | 3 => 4 * nx * ny * nz,
        4 => 8 * nx * ny * nz,
        _ => ((nx + 1) / 2) * ny * nz,
    }
}

#[test]
fn a_signed_byte_of_all_ones_is_minus_one() {
    let data = as_real(decode(&[0xFF], 1, 1, 1, 0).unwrap());
    assert_eq!(data, vec![vec![vec![-1.0f32]]]);
}

#[test]
fn signed_bytes_cover_their_range() {
    let data = as_real(decode(&[0x00, 0x01, 0x7F, 0x80, 0xFE], 5, 1, 1, 0).unwrap());
    let got: Vec<f32> = data.iter().map(|plane| plane[0][0]).collect();
    assert_eq!(got, vec![0.0, 1.0, 127.0, -128.0, -2.0]);
}

#[test]
fn the_same_two_bytes_differ_between_unsigned_and_signed() {
    assert_eq!(as_real(decode(&[0xFF, 0xFF], 1, 1, 1, 5).unwrap()), vec![vec![vec![65535.0f32]]]);
    assert_eq!(as_real(decode(&[0xFF, 0xFF], 1, 1, 1, 1).unwrap()), vec![vec![vec![-1.0f32]]]);
}

#[test]
fn sixteen_bit_samples_are_little_endian() {
    let bytes = [0x34, 0x12, 0x00, 0x80, 0xFF, 0x7F];
    let signed = as_real(decode(&bytes, 3, 1, 1, 1).unwrap());
    assert_eq!(signed[0][0][0], 4660.0);
    assert_eq!(signed[1][0][0], -32768.0);
    assert_eq!(signed[2][0][0], 32767.0);
    let unsigned = as_real(decode(&bytes, 3, 1, 1, 5).unwrap());
    assert_eq!(unsigned[0][0][0], 4660.0);
    assert_eq!(unsigned[1][0][0], 32768.0);
    assert_eq!(unsigned[2][0][0], 32767.0);
}

#[test]
fn thirty_two_bit_samples_are_little_endian_and_rounded() {
    let mut bytes = Vec::new();
    for v in [0x0102_0304i32, -1, i32::MIN, i32::MAX, 16_777_217] {
        bytes.extend_from_slice(&v.to_le_bytes());
    }
    let data = as_real(decode(&bytes, 5, 1, 1, 2).unwrap());
    assert_eq!(data[0][0][0], 16_909_060.0);
    assert_eq!(data[1][0][0], -1.0);
    assert_eq!(data[2][0][0], -2_147_483_648.0);
    assert_eq!(data[3][0][0], 2_147_483_648.0);
    assert_eq!(data[4][0][0], 16_777_216.0);
}

#[test]
fn half_precision_samples_are_widened() {
    let bytes = [0x00, 0x3C, 0x00, 0xC0, 0x01, 0x00, 0x00, 0x7C, 0xFF, 0x7B];
    let data = as_real(decode(&bytes, 5, 1, 1, 6).unwrap());
    assert_eq!(data[0][0][0], 1.0);
    assert_eq!(data[1][0][0], -2.0);
    assert_eq!(data[2][0][0], 5.960_464_5e-8);
    assert_eq!(data[3][0][0], f32::INFINITY);
    assert_eq!(data[4][0][0], 65504.0);
}

#[test]
fn packed_samples_come_low_half_first() {
    let data = as_real(decode(&[0x21, 0x07], 3, 1, 1, 101).unwrap());
    assert_eq!(data, vec![vec![vec![1.0f32]], vec![vec![2.0]], vec![vec![7.0]]]);
    let data = as_real(decode(&[0x21, 0x00], 3, 1, 1, 101).unwrap());
    assert_eq!(data, vec![vec![vec![1.0f32]], vec![vec![2.0]], vec![vec![0.0]]]);
}

#[test]
fn the_third_packed_sample_needs_a_second_byte() {
    assert_eq!(decode(&[0x21], 3, 1, 1, 101).err(), Some(DecodeError::Truncated));
    assert!(decode(&[0x21], 2, 1, 1, 101).is_ok());
}

#[test]
fn every_packed_row_starts_a_new_byte() {
    // Three samples a row: the high half of each row's second byte is unused.
    let bytes = [0x21, 0xF3, 0x54, 0xE6, 0x87, 0xD9, 0xBA, 0xCC];
    let data = as_real(decode(&bytes, 3, 2, 2, 101).unwrap());
    assert_eq!(data[0][0][0], 1.0);
    assert_eq!(data[1][0][0], 2.0);
    assert_eq!(data[2][0][0], 3.0);
    assert_eq!(data[0][1][0], 4.0);
    assert_eq!(data[1][1][0], 5.0);
    assert_eq!(data[2][1][0], 6.0);
    assert_eq!(data[0][0][1], 7.0);
    assert_eq!(data[1][0][1], 8.0);
    assert_eq!(data[2][0][1], 9.0);
    assert_eq!(data[0][1][1], 10.0);
    assert_eq!(data[1][1][1], 11.0);
    assert_eq!(data[2][1][1], 12.0);
}

#[test]
fn a_packed_row_of_one_sample_takes_a_byte() {
    let data = as_real(decode(&[0xA1, 0xB2, 0xC3], 1, 3, 1, 101).unwrap());
    assert_eq!(data, vec![vec![vec![1.0f32], vec![2.0], vec![3.0]]]);
}

#[test]
fn the_nibble_machine_alternates() {
    let bytes = [0x21u8, 0x43];
    let (v, at, state) = next_nibble(&bytes, 0, NibbleState::BytePending);
    assert_eq!((v, at, state), (1, 1, NibbleState::LowEmitted(0x21)));
    let (v, at, state) = next_nibble(&bytes, at, state);
    assert_eq!((v, at, state), (2, 1, NibbleState::BytePending));
    let (v, at, state) = next_nibble(&bytes, at, state);
    assert_eq!((v, at, state), (3, 2, NibbleState::LowEmitted(0x43)));
    let (v, at, state) = next_nibble(&bytes, at, state);
    assert_eq!((v, at, state), (4, 2, NibbleState::BytePending));
}

#[test]
fn complex_samples_keep_both_parts() {
    let bytes = [0x01, 0x00, 0xFE, 0xFF, 0x00, 0x80, 0xFF, 0x7F];
    let data = as_complex(decode(&bytes, 2, 1, 1, 3).unwrap());
    assert_eq!(data[0][0][0], (1.0, -2.0));
    assert_eq!(data[1][0][0], (-32768.0, 32767.0));

    let mut bytes = Vec::new();
    for v in [70_000i32, -70_000, i32::MIN, 16_777_219] {
        bytes.extend_from_slice(&v.to_le_bytes());
    }
    let data = as_complex(decode(&bytes, 1, 2, 1, 4).unwrap());
    assert_eq!(data[0][0][0], (70_000.0, -70_000.0));
    assert_eq!(data[0][1][0], (-2_147_483_648.0, 16_777_220.0));
}

#[test]
fn real_and_complex_encodings_give_arrays_of_their_own_kind() {
    for mode in [0, 1, 2, 5, 6, 101] {
        assert!(matches!(decode(&[0u8; 8], 1, 1, 1, mode), Ok(SampleArray::Real(_))));
    }
    for mode in [3, 4] {
        assert!(matches!(decode(&[0u8; 8], 1, 1, 1, mode), Ok(SampleArray::Complex(_))));
    }
}

#[test]
fn an_unknown_mode_is_refused() {
    assert_eq!(decode(&[0u8; 64], 1, 1, 1, 7).err(), Some(DecodeError::UnsupportedMode(7)));
    for mode in [-1, 8, 100, 102, i32::MAX, i32::MIN] {
        let mut stream = ByteStream::new(&[0u8; 64]);
        let r = read_data_block(&mut stream, &header(2, 2, 2, mode));
        assert_eq!(r.err(), Some(DecodeError::UnsupportedMode(mode)));
        assert_eq!(stream.position(), 0);
    }
}

#[test]
fn an_unknown_mode_is_refused_before_any_array_is_made() {
    // Extents that no machine could allocate: the refusal has to come first.
    let r = decode(&[], i32::MAX, i32::MAX, i32::MAX, 7);
    assert_eq!(r.err(), Some(DecodeError::UnsupportedMode(7)));
}

#[test]
fn dimensions_that_are_not_positive_are_refused() {
    for (nx, ny, nz) in [(0, 1, 1), (1, 0, 1), (1, 1, 0), (-1, 1, 1), (1, i32::MIN, 1), (0, 0, 0)] {
        for mode in [0, 2, 4, 7, 101] {
            let mut stream = ByteStream::new(&[0u8; 64]);
            let r = read_data_block(&mut stream, &header(nx, ny, nz, mode));
            assert_eq!(r.err(), Some(DecodeError::InvalidDimensions));
            assert_eq!(stream.position(), 0);
        }
    }
}

#[test]
fn a_block_of_exactly_the_needed_length_decodes() {
    for mode in [0, 1, 2, 3, 4, 5, 6, 101] {
        for (nx, ny, nz) in [(1, 1, 1), (2, 3, 4), (5, 1, 2), (1, 7, 1), (3, 3, 3), (4, 2, 1)] {
            let need = block_bytes(mode, nx, ny, nz);
            let bytes = vec![0x11u8; need];
            let mut stream = ByteStream::new(&bytes);
            let r = read_data_block(&mut stream, &header(nx as i32, ny as i32, nz as i32, mode));
            assert_eq!(stream.position(), need);
            let (x, y, z) = match r.unwrap() {
                SampleArray::Real(d) => (d.len(), d[0].len(), d[0][0].len()),
                SampleArray::Complex(d) => (d.len(), d[0].len(), d[0][0].len()),
            };
            assert_eq!((x, y, z), (nx, ny, nz));
        }
    }
}

#[test]
fn every_plane_and_row_has_the_full_extent() {
    let bytes = vec![0u8; 2 * 3 * 4 * 4];
    match decode(&bytes, 2, 3, 4, 2).unwrap() {
        SampleArray::Real(data) => {
            assert_eq!(data.len(), 2);
            for plane in &data {
                assert_eq!(plane.len(), 3);
                for row in plane {
                    assert_eq!(row.len(), 4);
                }
            }
        },
        SampleArray::Complex(_) => panic!("complex samples where real ones were expected"),
    }
}

#[test]
fn a_block_that_is_one_byte_short_is_refused() {
    for mode in [0, 1, 2, 3, 4, 5, 6, 101] {
        for (nx, ny, nz) in [(1, 1, 1), (2, 3, 4), (5, 1, 2), (3, 3, 3)] {
            let need = block_bytes(mode, nx, ny, nz);
            for len in [0, need / 2, need - 1] {
                let bytes = vec![0x11u8; len];
                let mut stream = ByteStream::new(&bytes);
                let r =
                    read_data_block(&mut stream, &header(nx as i32, ny as i32, nz as i32, mode));
                assert_eq!(r.err(), Some(DecodeError::Truncated));
                assert_eq!(stream.position(), 0);
            }
        }
    }
}

#[test]
fn extents_beyond_any_input_are_refused_as_truncated() {
    let r = decode(&[0u8; 16], i32::MAX, i32::MAX, i32::MAX, 4);
    assert_eq!(r.err(), Some(DecodeError::Truncated));
    let r = decode(&[0u8; 16], i32::MAX, i32::MAX, i32::MAX, 101);
    assert_eq!(r.err(), Some(DecodeError::Truncated));
}

#[test]
fn bytes_after_the_block_are_left_unread() {
    let bytes = [1u8, 2, 3, 4, 5, 6, 7];
    let mut stream = ByteStream::new(&bytes);
    let data = as_real(read_data_block(&mut stream, &header(2, 2, 1, 0)).unwrap());
    assert_eq!(data, vec![vec![vec![1.0f32], vec![3.0]], vec![vec![2.0], vec![4.0]]]);
    assert_eq!(stream.position(), 4);
    assert_eq!(stream.remaining(), 3);
}

#[test]
fn a_block_is_read_from_where_the_stream_stands() {
    let bytes = [9u8, 9, 9, 0x05, 0x00, 0xFB, 0xFF];
    let mut stream = ByteStream::new(&bytes);
    assert_eq!(stream.skip(3), Ok(()));
    let data = as_real(read_data_block(&mut stream, &header(2, 1, 1, 1)).unwrap());
    assert_eq!(data, vec![vec![vec![5.0f32]], vec![vec![-5.0]]]);
    assert_eq!(stream.position(), 7);
}

#[test]
fn samples_arrive_columns_first_then_rows_then_sections() {
    let mut bytes = Vec::new();
    for v in 0..8i32 {
        bytes.extend_from_slice(&v.to_le_bytes());
    }
    let data = as_real(decode(&bytes, 2, 2, 2, 2).unwrap());
    assert_eq!(data[0][0][0], 0.0);
    assert_eq!(data[1][0][0], 1.0);
    assert_eq!(data[0][1][0], 2.0);
    assert_eq!(data[1][1][0], 3.0);
    assert_eq!(data[0][0][1], 4.0);
    assert_eq!(data[1][0][1], 5.0);
    assert_eq!(data[0][1][1], 6.0);
    assert_eq!(data[1][1][1], 7.0);
}

#[test]
fn wire_order_holds_for_unequal_extents_in_every_encoding() {
    let (nx, ny, nz) = (3usize, 4usize, 2usize);
    for mode in [0, 1, 2, 5] {
        let mut bytes = Vec::new();
        for n in 0..(nx * ny * nz) as i32 {
            match mode {
                0 => bytes.push(n as u8),
                1 | 5 => bytes.extend_from_slice(&(n as u16).to_le_bytes()),
                _ => bytes.extend_from_slice(&n.to_le_bytes()),
            }
        }
        let data = as_real(decode(&bytes, nx as i32, ny as i32, nz as i32, mode).unwrap());
        for z in 0..nz {
            for y in 0..ny {
                for x in 0..nx {
                    assert_eq!(data[x][y][z], ((z * ny + y) * nx + x) as f32);
                }
            }
        }
    }
    let mut bytes = Vec::new();
    for n in 0..(nx * ny * nz) as i16 {
        bytes.extend_from_slice(&n.to_le_bytes());
        bytes.extend_from_slice(&(-n).to_le_bytes());
    }
    let data = as_complex(decode(&bytes, nx as i32, ny as i32, nz as i32, 3).unwrap());
    for z in 0..nz {
        for y in 0..ny {
            for x in 0..nx {
                let n = ((z * ny + y) * nx + x) as f32;
                assert_eq!(data[x][y][z], (n, -n));
            }
        }
    }
}

#[test]
fn each_reader_fills_the_array_it_is_given() {
    let bytes = [0x01u8, 0x80, 0x03, 0x04, 0x05, 0x06, 0x07, 0x08];

    let mut data = new_real_grid(2, 1, 1);
    let mut stream = ByteStream::new(&bytes);
    assert_eq!(read_data_as_i8(&mut stream, &mut data, 2, 1, 1), Ok(()));
    assert_eq!(data, vec![vec![vec![1.0f32.to_bits()]], vec![vec![(-128.0f32).to_bits()]]]);
    assert_eq!(stream.position(), 2);

    let mut stream = ByteStream::new(&bytes);
    assert_eq!(read_data_as_i16(&mut stream, &mut data, 2, 1, 1), Ok(()));
    assert_eq!(data, vec![vec![vec![(-32767.0f32).to_bits()]], vec![vec![1027.0f32.to_bits()]]]);
    assert_eq!(stream.position(), 4);

    let mut stream = ByteStream::new(&bytes);
    assert_eq!(read_data_as_u16(&mut stream, &mut data, 2, 1, 1), Ok(()));
    assert_eq!(data, vec![vec![vec![32769.0f32.to_bits()]], vec![vec![1027.0f32.to_bits()]]]);

    let mut stream = ByteStream::new(&bytes);
    assert_eq!(read_data_as_i32(&mut stream, &mut data, 2, 1, 1), Ok(()));
    assert_eq!(
        data,
        vec![vec![vec![(0x0403_8001 as f32).to_bits()]], vec![vec![(0x0807_0605 as f32).to_bits()]]]
    );
    assert_eq!(stream.position(), 8);

    let mut stream = ByteStream::new(&[0x00, 0x3C, 0x00, 0xBC]);
    assert_eq!(read_data_as_f16(&mut stream, &mut data, 2, 1, 1), Ok(()));
    assert_eq!(data, vec![vec![vec![1.0f32.to_bits()]], vec![vec![(-1.0f32).to_bits()]]]);

    let mut stream = ByteStream::new(&[0xF9]);
    assert_eq!(read_data_as_4bit_packed(&mut stream, &mut data, 2, 1, 1), Ok(()));
    assert_eq!(data, vec![vec![vec![9.0f32.to_bits()]], vec![vec![15.0f32.to_bits()]]]);
    assert_eq!(stream.position(), 1);

    let mut pairs = new_complex_grid(1, 1, 2);
    let mut stream = ByteStream::new(&bytes);
    assert_eq!(read_data_as_complex_i16(&mut stream, &mut pairs, 1, 1, 2), Ok(()));
    assert_eq!(
        pairs,
        vec![vec![vec![
            ComplexSample { re: (-32767.0f32).to_bits(), im: 1027.0f32.to_bits() },
            ComplexSample { re: 1541.0f32.to_bits(), im: 2055.0f32.to_bits() },
        ]]]
    );

    let mut pairs = new_complex_grid(1, 1, 1);
    let mut stream = ByteStream::new(&bytes);
    assert_eq!(read_data_as_complex_i32(&mut stream, &mut pairs, 1, 1, 1), Ok(()));
    assert_eq!(
        pairs,
        vec![vec![vec![ComplexSample {
            re: (0x0403_8001 as f32).to_bits(),
            im: (0x0807_0605 as f32).to_bits(),
        }]]]
    );
}

/// An array of the given extents whose cells hold distinct values that no
/// decoding gives.
fn marked(nx: usize, ny: usize, nz: usize) -> Vec<Vec<Vec<u32>>> {
    let mut data = new_real_grid(nx, ny, nz);
    for x in 0..nx {
        for y in 0..ny {
            for z in 0..nz {
                let mark = 0x7FC0_0000 + ((z * ny + y) * nx + x) as u32;
                set_cell(&mut data, x, y, z, mark, nx, ny, nz);
            }
        }
    }
    data
}

#[test]
fn a_truncated_block_of_bytes_leaves_what_was_decoded() {
    let (nx, ny, nz) = (2usize, 2usize, 2usize);
    for m in 0..8usize {
        let bytes: Vec<u8> = (0..m as u8).map(|n| n.wrapping_mul(37).wrapping_add(200)).collect();
        let before = marked(nx, ny, nz);
        let mut data = before.clone();
        let mut stream = ByteStream::new(&bytes);
        let r = read_data_as_i8(&mut stream, &mut data, nx, ny, nz);
        assert_eq!(r, Err(DecodeError::Truncated));
        assert_eq!(stream.position(), m);
        assert_eq!(stream.remaining(), 0);
        assert_eq!(data.len(), nx);
        for x in 0..nx {
            assert_eq!(data[x].len(), ny);
            for y in 0..ny {
                assert_eq!(data[x][y].len(), nz);
                for z in 0..nz {
                    let place = x + nx * (y + ny * z);
                    if place < m {
                        assert_eq!(data[x][y][z], ((bytes[place] as i8) as f32).to_bits());
                    } else {
                        assert_eq!(data[x][y][z], before[x][y][z]);
                    }
                }
            }
        }
    }
}

#[test]
fn a_truncated_block_of_wider_samples_drops_the_broken_sample() {
    // Seven bytes hold three whole 16-bit samples and half of a fourth.
    let bytes = [0x01u8, 0x00, 0xFE, 0xFF, 0x00, 0x80, 0x7F];
    let before = marked(2, 2, 1);
    let mut data = before.clone();
    let mut stream = ByteStream::new(&bytes);
    assert_eq!(read_data_as_i16(&mut stream, &mut data, 2, 2, 1), Err(DecodeError::Truncated));
    assert_eq!(stream.position(), 7);
    assert_eq!(data[0][0][0], 1.0f32.to_bits());
    assert_eq!(data[1][0][0], (-2.0f32).to_bits());
    assert_eq!(data[0][1][0], (-32768.0f32).to_bits());
    assert_eq!(data[1][1][0], before[1][1][0]);

    let mut data = before.clone();
    let mut stream = ByteStream::new(&bytes);
    assert_eq!(read_data_as_u16(&mut stream, &mut data, 2, 2, 1), Err(DecodeError::Truncated));
    assert_eq!(stream.position(), 7);
    assert_eq!(data[1][0][0], 65534.0f32.to_bits());
    assert_eq!(data[0][1][0], 32768.0f32.to_bits());
    assert_eq!(data[1][1][0], before[1][1][0]);

    let mut data = before.clone();
    let mut stream = ByteStream::new(&[0x00, 0x3C, 0x00]);
    assert_eq!(read_data_as_f16(&mut stream, &mut data, 2, 2, 1), Err(DecodeError::Truncated));
    assert_eq!(stream.position(), 3);
    assert_eq!(data[0][0][0], 1.0f32.to_bits());
    assert_eq!(data[1][0][0], before[1][0][0]);
    assert_eq!(data[0][1][0], before[0][1][0]);

    let mut data = before.clone();
    let mut stream = ByteStream::new(&bytes);
    assert_eq!(read_data_as_i32(&mut stream, &mut data, 2, 2, 1), Err(DecodeError::Truncated));
    assert_eq!(stream.position(), 7);
    assert_eq!(data[0][0][0], (0xFFFE_0001u32 as i32 as f32).to_bits());
    assert_eq!(data[1][0][0], before[1][0][0]);
    assert_eq!(data[0][1][0], before[0][1][0]);
    assert_eq!(data[1][1][0], before[1][1][0]);

    let mut data = before.clone();
    let mut stream = ByteStream::new(&[]);
    assert_eq!(read_data_as_i32(&mut stream, &mut data, 2, 2, 1), Err(DecodeError::Truncated));
    assert_eq!(stream.position(), 0);
    assert_eq!(data, before);
}

#[test]
fn a_truncated_packed_block_stops_where_a_byte_is_missing() {
    // Rows of three samples take two bytes each; the third byte opens row 1.
    let bytes = [0x21u8, 0xF3, 0x54];
    let before = marked(3, 2, 1);
    let mut data = before.clone();
    let mut stream = ByteStream::new(&bytes);
    let r = read_data_as_4bit_packed(&mut stream, &mut data, 3, 2, 1);
    assert_eq!(r, Err(DecodeError::Truncated));
    assert_eq!(stream.position(), 3);
    assert_eq!(data[0][0][0], 1.0f32.to_bits());
    assert_eq!(data[1][0][0], 2.0f32.to_bits());
    assert_eq!(data[2][0][0], 3.0f32.to_bits());
    assert_eq!(data[0][1][0], 4.0f32.to_bits());
    assert_eq!(data[1][1][0], 5.0f32.to_bits());
    assert_eq!(data[2][1][0], before[2][1][0]);

    let mut data = before.clone();
    let mut stream = ByteStream::new(&bytes[..1]);
    let r = read_data_as_4bit_packed(&mut stream, &mut data, 3, 2, 1);
    assert_eq!(r, Err(DecodeError::Truncated));
    assert_eq!(stream.position(), 1);
    assert_eq!(data[0][0][0], 1.0f32.to_bits());
    assert_eq!(data[1][0][0], 2.0f32.to_bits());
    for (x, y) in [(2, 0), (0, 1), (1, 1), (2, 1)] {
        assert_eq!(data[x][y][0], before[x][y][0]);
    }
}

#[test]
fn a_truncated_complex_block_keeps_only_whole_pairs() {
    let mark = ComplexSample { re: 0x7FC0_0001, im: 0x7FC0_0002 };
    // One whole pair and the real part of a second.
    let bytes = [0x01u8, 0x00, 0xFE, 0xFF, 0x05, 0x00];
    let mut pairs = vec![vec![vec![mark; 1]; 1]; 2];
    let mut stream = ByteStream::new(&bytes);
    let r = read_data_as_complex_i16(&mut stream, &mut pairs, 2, 1, 1);
    assert_eq!(r, Err(DecodeError::Truncated));
    assert_eq!(stream.position(), 6);
    assert_eq!(pairs[0][0][0], ComplexSample { re: 1.0f32.to_bits(), im: (-2.0f32).to_bits() });
    assert_eq!(pairs[1][0][0], mark);

    let mut pairs = vec![vec![vec![mark; 1]; 1]; 2];
    let mut stream = ByteStream::new(&bytes);
    let r = read_data_as_complex_i32(&mut stream, &mut pairs, 2, 1, 1);
    assert_eq!(r, Err(DecodeError::Truncated));
    assert_eq!(stream.position(), 6);
    assert_eq!(pairs[0][0][0], mark);
    assert_eq!(pairs[1][0][0], mark);

    let mut stream = ByteStream::new(&[0x01, 0, 0, 0, 0x02, 0, 0, 0, 0x03, 0, 0, 0, 0x04, 0, 0]);
    let r = read_data_as_complex_i32(&mut stream, &mut pairs, 2, 1, 1);
    assert_eq!(r, Err(DecodeError::Truncated));
    assert_eq!(stream.position(), 15);
    assert_eq!(pairs[0][0][0], ComplexSample { re: 1.0f32.to_bits(), im: 2.0f32.to_bits() });
    assert_eq!(pairs[1][0][0], mark);
}

#[test]
fn a_truncated_block_is_read_from_where_the_stream_stands() {
    let bytes = [9u8, 9, 0x05, 0xFB];
    let before = marked(3, 1, 1);
    let mut data = before.clone();
    let mut stream = ByteStream::new(&bytes);
    assert_eq!(stream.skip(2), Ok(()));
    assert_eq!(read_data_as_i8(&mut stream, &mut data, 3, 1, 1), Err(DecodeError::Truncated));
    assert_eq!(stream.position(), 4);
    assert_eq!(data[0][0][0], 5.0f32.to_bits());
    assert_eq!(data[1][0][0], (-5.0f32).to_bits());
    assert_eq!(data[2][0][0], before[2][0][0]);
}

#[test]
fn an_empty_array_takes_no_bytes() {
    let bytes = [1u8, 2, 3];
    let mut data = new_real_grid(0, 2, 2);
    let mut stream = ByteStream::new(&bytes);
    assert_eq!(read_data_as_i32(&mut stream, &mut data, 0, 2, 2), Ok(()));
    assert_eq!(stream.position(), 0);
    let mut data = new_real_grid(2, 0, 2);
    assert_eq!(read_data_as_4bit_packed(&mut stream, &mut data, 2, 0, 2), Ok(()));
    assert_eq!(stream.position(), 0);
}

#[test]
fn new_arrays_are_zero_and_single_cells_can_be_set() {
    let mut data = new_real_grid(2, 3, 4);
    assert_eq!(data, vec![vec![vec![0u32; 4]; 3]; 2]);
    set_cell(&mut data, 1, 2, 3, 77, 2, 3, 4);
    let mut want = vec![vec![vec![0u32; 4]; 3]; 2];
    want[1][2][3] = 77;
    assert_eq!(data, want);
    assert_eq!(new_complex_grid(1, 2, 1), vec![vec![vec![ComplexSample { re: 0, im: 0 }]; 2]; 1]);
}
