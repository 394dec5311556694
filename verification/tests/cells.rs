use game_of_life::universe::packed_size;
use game_of_life::universe::valid_dimensions;
use game_of_life::universe::wrap_offset;
use game_of_life::patterns::glider;
use game_of_life::patterns::pulsar;
use game_of_life::Universe;

fn blank(width: u32, height: u32) -> Universe {
    let mut universe = Universe::new(width, height);
    universe.clear();
    universe
}

fn bit(bytes: &[u8], index: usize) -> u8 {
    (bytes[index / 8] >> (index % 8)) & 1
}

#[test]
fn packed_size_rounds_up_to_whole_bytes() {
    assert_eq!(packed_size(20, 20), 50);
    assert_eq!(packed_size(3, 3), 2);
    assert_eq!(packed_size(1, 1), 1);
    assert_eq!(packed_size(8, 1), 1);
    assert_eq!(packed_size(64, 64), 512);
    assert_eq!(packed_size(5, 7), 5);
}

#[test]
fn valid_dimensions_rejects_zero() {
    assert!(valid_dimensions(1, 1));
    assert!(valid_dimensions(64, 64));
    assert!(!valid_dimensions(0, 5));
    assert!(!valid_dimensions(5, 0));
    assert!(!valid_dimensions(0, 0));
}

#[test]
fn wrap_offset_goes_round_the_ring() {
    assert_eq!(wrap_offset(0, -1, 20), 19);
    assert_eq!(wrap_offset(19, 1, 20), 0);
    assert_eq!(wrap_offset(5, 0, 20), 5);
    assert_eq!(wrap_offset(5, 6, 20), 11);
    assert_eq!(wrap_offset(5, -6, 20), 19);
    assert_eq!(wrap_offset(1, -6, 3), 1);
    assert_eq!(wrap_offset(0, -6, 3), 0);
    assert_eq!(wrap_offset(0, -7, 3), 2);
    assert_eq!(wrap_offset(0, 7, 1), 0);
    assert_eq!(wrap_offset(u32::MAX, i32::MAX, u32::MAX), i32::MAX as u32);
    assert_eq!(wrap_offset(0, i32::MIN, 10), 2);
}

#[test]
fn new_allocates_one_bit_per_cell() {
    let universe = Universe::new(20, 20);
    assert_eq!(universe.width(), 20);
    assert_eq!(universe.height(), 20);
    assert_eq!(universe.get_cells().len(), 50);

    let universe = Universe::new(3, 3);
    assert_eq!(universe.get_cells().len(), 2);

    let universe = Universe::new(64, 12);
    assert_eq!(universe.get_cells().len(), 96);
}

#[test]
fn new_draws_bytes_that_differ() {
    // 4096 bytes from a generator: they are not all one value.
    let universe = Universe::new(256, 128);
    let bytes = universe.get_cells();
    assert!(bytes.iter().any(|byte| *byte != bytes[0]));
}

#[test]
fn with_cells_keeps_the_buffer() {
    let universe = Universe::with_cells(4, 4, vec![0x12, 0x34, 0x56]);
    assert_eq!(universe.width(), 4);
    assert_eq!(universe.height(), 4);
    assert_eq!(universe.get_cells(), &[0x12, 0x34, 0x56]);
}

#[test]
fn get_index_is_row_major() {
    let universe = blank(7, 5);
    assert_eq!(universe.get_index(0, 0), 0);
    assert_eq!(universe.get_index(0, 6), 6);
    assert_eq!(universe.get_index(1, 0), 7);
    assert_eq!(universe.get_index(4, 6), 34);
    assert_eq!(universe.get_index(2, 9), 23);
}

#[test]
fn get_bit_reads_the_least_significant_bit_first() {
    let universe = Universe::with_cells(4, 4, vec![0b0000_0001, 0b1000_0000]);
    assert_eq!(universe.get_bit(0, 0), 1);
    assert_eq!(universe.get_bit(0, 1), 0);
    assert_eq!(universe.get_bit(3, 3), 1);
    assert_eq!(universe.get_bit(3, 2), 0);
    assert_eq!(universe._get_bit_by_index(0), 1);
    assert_eq!(universe._get_bit_by_index(15), 1);
    assert_eq!(universe._get_bit_by_index(8), 0);
}

#[test]
fn set_cell_bit_sets_and_clears_one_bit() {
    let mut universe = Universe::with_cells(4, 2, vec![0b0000_0000]);
    assert_eq!(universe.set_cell_bit(1, 2, 1), 1);
    assert_eq!(universe.get_cells(), &[0b0100_0000]);
    assert_eq!(universe.set_cell_bit(0, 0, 1), 1);
    assert_eq!(universe.get_cells(), &[0b0100_0001]);
    assert_eq!(universe.set_cell_bit(1, 2, 0), 0);
    assert_eq!(universe.get_cells(), &[0b0000_0001]);
    assert_eq!(universe.set_cell_bit(0, 0, 0), 0);
    assert_eq!(universe.get_cells(), &[0b0000_0000]);
}

#[test]
fn set_cell_bit_takes_any_value_but_zero_as_alive() {
    let mut universe = Universe::with_cells(4, 2, vec![0b0000_0000]);
    assert_eq!(universe.set_cell_bit(0, 3, 7), 7);
    assert_eq!(universe.get_cells(), &[0b0000_1000]);
    assert_eq!(universe.get_bit(0, 3), 1);
}

#[test]
fn set_bit_writes_to_the_given_buffer_only() {
    let universe = Universe::with_cells(4, 2, vec![0b1111_0000]);
    let mut copy = vec![0b0000_0000, 0b1111_1111];
    assert_eq!(universe.set_bit(1, 1, 1, &mut copy), 1);
    assert_eq!(copy, vec![0b0010_0000, 0b1111_1111]);
    assert_eq!(universe.set_bit(2, 1, 0, &mut copy), 0);
    assert_eq!(copy, vec![0b0010_0000, 0b1111_1101]);
    assert_eq!(universe.get_cells(), &[0b1111_0000]);
}

#[test]
fn toggle_cell_flips_one_cell() {
    let mut universe = blank(8, 8);
    universe.toggle_cell(3, 4);
    assert_eq!(universe.get_bit(3, 4), 1);
    assert_eq!(universe.get_cells().iter().map(|byte| byte.count_ones()).sum::<u32>(), 1);
    universe.toggle_cell(3, 4);
    assert_eq!(universe.get_bit(3, 4), 0);
    assert_eq!(universe.get_cells(), &[0u8; 8]);
}

#[test]
fn set_cells_then_get_cells_round_trip() {
    let mut universe = Universe::new(8, 8);
    let before = universe.get_cells().to_vec();
    let width = universe.width() as usize;
    universe.set_cells(&[(2, 3), (4, 1)]);
    let after = universe.get_cells();
    assert_eq!(after.len(), before.len());
    for index in 0..8 * before.len() {
        if index == 2 * width + 3 || index == 4 * width + 1 {
            assert_eq!(bit(after, index), 1);
        } else {
            assert_eq!(bit(after, index), bit(&before, index));
        }
    }
}

#[test]
fn set_cells_on_a_blank_universe() {
    let mut universe = blank(8, 8);
    universe.set_cells(&[(2, 3), (4, 1)]);
    assert_eq!(universe.get_cells(), &[0, 0, 0b0000_1000, 0, 0b0000_0010, 0, 0, 0]);
    universe.set_cells(&[]);
    assert_eq!(universe.get_cells(), &[0, 0, 0b0000_1000, 0, 0b0000_0010, 0, 0, 0]);
}

#[test]
fn glider_table_has_five_cells() {
    assert_eq!(glider(), [(-1, 1), (0, -1), (0, 1), (1, 0), (1, 1)]);
}

#[test]
fn pulsar_table_has_forty_eight_distinct_cells() {
    let offsets = pulsar();
    assert_eq!(offsets.len(), 48);
    for (k, offset) in offsets.iter().enumerate() {
        assert!(!offsets[..k].contains(offset));
        // The pattern is its own mirror image in both axes.
        assert!(offsets.contains(&(-offset.0, offset.1)));
        assert!(offsets.contains(&(offset.0, -offset.1)));
        assert!(offsets.contains(&(offset.1, offset.0)));
    }
    assert_eq!(offsets[0], (-6, 4));
    assert_eq!(offsets[47], (-1, 2));
}

#[test]
fn set_glider_brings_five_cells_to_life() {
    let mut universe = blank(8, 8);
    universe.set_glider(2, 2);
    // (1, 3), (2, 1), (2, 3), (3, 2), (3, 3)
    assert_eq!(universe.get_cells(), &[0, 0b0000_1000, 0b0000_1010, 0b0000_1100, 0, 0, 0, 0]);
}

#[test]
fn set_glider_wraps_at_the_corner() {
    let mut universe = blank(8, 8);
    universe.set_glider(0, 0);
    // (7, 1), (0, 7), (0, 1), (1, 0), (1, 1)
    assert_eq!(universe.get_cells(), &[0b1000_0010, 0b0000_0011, 0, 0, 0, 0, 0, 0b0000_0010]);
}

#[test]
fn set_glider_twice_is_set_glider_once() {
    let mut universe = Universe::new(16, 16);
    universe.set_glider(7, 9);
    let once = universe.get_cells().to_vec();
    universe.set_glider(7, 9);
    assert_eq!(universe.get_cells(), &once[..]);
    assert_eq!(universe.get_bit(6, 10), 1);
    assert_eq!(universe.get_bit(7, 8), 1);
    assert_eq!(universe.get_bit(7, 10), 1);
    assert_eq!(universe.get_bit(8, 9), 1);
    assert_eq!(universe.get_bit(8, 10), 1);
}

#[test]
fn set_glider_leaves_the_other_cells_alone() {
    let mut universe = Universe::with_cells(8, 8, vec![0xff; 8]);
    universe.set_glider(4, 4);
    assert_eq!(universe.get_cells(), &[0xff; 8]);
}

#[test]
fn set_pulsar_wraps_on_a_small_universe() {
    // On 4 by 4 cells the offsets -6 and 6 meet at the same place.
    let mut universe = blank(4, 4);
    universe.set_pulsar(0, 0);
    let mut expected = blank(4, 4);
    for (delta_row, delta_col) in pulsar() {
        let row = (delta_row + 8) as u32 % 4;
        let col = (delta_col + 8) as u32 % 4;
        expected.set_cells(&[(row, col)]);
    }
    assert_eq!(universe.get_cells(), expected.get_cells());
}

#[test]
fn stamp_relative_writes_the_value_it_is_given() {
    let mut universe = Universe::with_cells(4, 4, vec![0xff, 0xff]);
    universe.stamp_relative(1, 1, &[(-1, -1), (0, 0), (1, 1)], 0);
    // (0, 0), (1, 1), (2, 2) die.
    assert_eq!(universe.get_cells(), &[0b1101_1110, 0b1111_1011]);
    universe.stamp_relative(1, 1, &[(-1, -1)], 1);
    assert_eq!(universe.get_cells(), &[0b1101_1111, 0b1111_1011]);
}

#[test]
fn set_relative_bit_wraps_both_ways() {
    let mut universe = blank(4, 4);
    assert_eq!(universe.set_relative_bit(0, 0, -1, -1, 1), 1);
    assert_eq!(universe.get_bit(3, 3), 1);
    assert_eq!(universe._get_relative_bit(0, 0, -1, -1), 1);
    assert_eq!(universe._get_relative_bit(2, 2, 1, 1), 1);
    assert_eq!(universe._get_relative_bit(2, 2, 1, 0), 0);
    assert_eq!(universe.set_relative_bit(3, 3, 1, 1, 1), 1);
    assert_eq!(universe.get_bit(0, 0), 1);
    assert_eq!(universe.set_relative_bit(3, 3, 0, 0, 0), 0);
    assert_eq!(universe.get_cells(), &[0b0000_0001, 0]);
}

#[test]
fn set_width_resets_to_dead() {
    let mut universe = Universe::with_cells(4, 4, vec![0xff, 0xff]);
    universe.set_width(6);
    assert_eq!(universe.width(), 6);
    assert_eq!(universe.height(), 4);
    assert_eq!(universe.get_cells(), &[0u8; 24]);
    for row in 0..4 {
        for col in 0..6 {
            assert_eq!(universe.get_bit(row, col), 0);
        }
    }
}

#[test]
fn set_height_resets_to_dead() {
    let mut universe = Universe::with_cells(4, 4, vec![0xff, 0xff]);
    universe.set_height(3);
    assert_eq!(universe.width(), 4);
    assert_eq!(universe.height(), 3);
    assert_eq!(universe.get_cells(), &[0u8; 12]);
    for row in 0..3 {
        for col in 0..4 {
            assert_eq!(universe.get_bit(row, col), 0);
        }
    }
}

#[test]
fn clear_kills_every_cell() {
    let mut universe = Universe::with_cells(5, 7, vec![0xff; 9]);
    universe.clear();
    assert_eq!(universe.width(), 5);
    assert_eq!(universe.height(), 7);
    assert_eq!(universe.get_cells(), &[0u8; 5]);
}

#[test]
fn reset_allocates_one_bit_per_cell() {
    let mut universe = Universe::with_cells(5, 7, vec![0; 35]);
    universe.reset();
    assert_eq!(universe.width(), 5);
    assert_eq!(universe.height(), 7);
    assert_eq!(universe.get_cells().len(), 5);
}

#[test]
fn reset_draws_bytes_that_differ() {
    let mut universe = Universe::with_cells(256, 128, vec![0; 4096]);
    universe.reset();
    let bytes = universe.get_cells();
    assert_eq!(bytes.len(), 4096);
    assert!(bytes.iter().any(|byte| *byte != bytes[0]));
}

#[test]
fn contains_holds_both_coordinates_against_the_dimensions() {
    let universe = blank(6, 4);
    assert!(universe.contains(0, 0));
    assert!(universe.contains(3, 5));
    assert!(!universe.contains(4, 0));
    assert!(!universe.contains(0, 6));
}
