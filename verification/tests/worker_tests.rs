use mcu_worker::worker::Component;
use mcu_worker::worker::Dimensions;
use mcu_worker::worker::RowData;
use mcu_worker::worker::Worker;
use mcu_worker::worker::WorkerError;
use mcu_worker::worker::MAX_COMPONENTS;
use std::sync::Arc;

fn comp(width: u16, height: u16, vsf: u8) -> Component {
    Component {
        block_size: Dimensions { width, height },
        vertical_sampling_factor: vsf,
    }
}

fn table(q: u16) -> Arc<[u16; 64]> {
    Arc::new([q; 64])
}

fn row_data(index: usize, component: Component, q: u16) -> RowData {
    RowData {
        index,
        component,
        quantization_table: table(q),
    }
}

#[test]
fn buffer_sizing_after_start() {
    let mut w = Worker::new();
    w.start(row_data(0, comp(2, 3, 1), 1)).unwrap();
    let plane = w.get_result(0).unwrap();
    assert_eq!(plane.len(), 2 * 3 * 64);
    assert!(plane.iter().all(|&b| b == 0));
}

#[test]
fn start_twice_is_slot_busy() {
    let mut w = Worker::new();
    w.start(row_data(1, comp(1, 1, 1), 1)).unwrap();
    let second = w.start(row_data(1, comp(1, 1, 1), 1));
    assert_eq!(second, Err(WorkerError::SlotBusy));
}

#[test]
fn start_after_drain_succeeds() {
    let mut w = Worker::new();
    w.start(row_data(0, comp(1, 1, 1), 1)).unwrap();
    w.get_result(0).unwrap();
    assert_eq!(w.start(row_data(0, comp(1, 2, 1), 1)), Ok(()));
    assert_eq!(w.get_result(0).unwrap().len(), 2 * 64);
}

#[test]
fn append_row_length_mismatch() {
    let mut w = Worker::new();
    w.start(row_data(0, comp(1, 1, 1), 1)).unwrap();
    let short = vec![0i16; 63];
    assert_eq!(w.append_row(0, short), Err(WorkerError::RowLengthMismatch));
    let long = vec![0i16; 128];
    assert_eq!(w.append_row(0, long), Err(WorkerError::RowLengthMismatch));
    assert_eq!(w.append_row(0, vec![0i16; 64]), Ok(()));
}

#[test]
fn index_out_of_range_is_invalid_index() {
    let mut w = Worker::new();
    assert_eq!(
        w.start(row_data(MAX_COMPONENTS, comp(1, 1, 1), 1)),
        Err(WorkerError::InvalidIndex)
    );
    assert_eq!(
        w.append_row(MAX_COMPONENTS, vec![0i16; 64]),
        Err(WorkerError::InvalidIndex)
    );
    assert_eq!(w.get_result(MAX_COMPONENTS), Err(WorkerError::InvalidIndex));
    assert_eq!(w.get_result(9), Err(WorkerError::InvalidIndex));
}

#[test]
fn append_without_session_is_rejected() {
    let mut w = Worker::new();
    assert_eq!(
        w.append_row(0, vec![0i16; 64]),
        Err(WorkerError::SlotNotStarted)
    );
    w.start(row_data(0, comp(1, 1, 1), 1)).unwrap();
    w.get_result(0).unwrap();
    assert_eq!(
        w.append_row(0, vec![0i16; 64]),
        Err(WorkerError::SlotNotStarted)
    );
}

#[test]
fn zero_coefficients_give_flat_plane() {
    let mut w = Worker::new();
    w.start(row_data(0, comp(2, 2, 1), 17)).unwrap();
    w.append_row(0, vec![0i16; 128]).unwrap();
    w.append_row(0, vec![0i16; 128]).unwrap();
    let plane = w.get_result(0).unwrap();
    assert_eq!(plane.len(), 2 * 2 * 64);
    assert!(plane.iter().all(|&b| b == 128));
}

#[test]
fn dc_coefficient_places_blocks() {
    // Two blocks across, one appended row: the left block's DC is 8 with
    // quantizer 16, so every left sample is (8 * 16 + 1028) / 8 = 144; the
    // right block stays at the flat zero level 128.
    let mut w = Worker::new();
    w.start(row_data(0, comp(2, 1, 1), 16)).unwrap();
    let mut row = vec![0i16; 128];
    row[0] = 8;
    w.append_row(0, row).unwrap();
    let plane = w.get_result(0).unwrap();
    assert_eq!(plane.len(), 128);
    let stride = 2 * 8;
    for line in 0..8 {
        for col in 0..8 {
            assert_eq!(plane[line * stride + col], 144);
            assert_eq!(plane[line * stride + 8 + col], 128);
        }
    }
}

#[test]
fn dc_value_is_clamped() {
    let mut w = Worker::new();
    w.start(row_data(0, comp(2, 1, 1), 65535)).unwrap();
    let mut row = vec![0i16; 128];
    row[0] = 32767;
    row[64] = -2;
    w.append_row(0, row).unwrap();
    let plane = w.get_result(0).unwrap();
    // Left block saturates high, right block saturates low:
    // -2 * 65535 + 1028 < 0.
    assert_eq!(plane[0], 255);
    assert_eq!(plane[8], 0);
}

#[test]
fn rows_advance_the_cursor_in_order() {
    // One block across, height 4, two block lines per MCU row: two appends
    // fill the plane, the first the top 16 lines, the second the bottom 16.
    let mut w = Worker::new();
    w.start(row_data(0, comp(1, 4, 2), 8)).unwrap();
    let mut first = vec![0i16; 128];
    first[0] = 10; // top block: (10 * 8 + 1028) / 8 = 138
    first[64] = 20; // second block: (20 * 8 + 1028) / 8 = 148
    w.append_row(0, first).unwrap();
    let mut second = vec![0i16; 128];
    second[0] = 30; // third block: (30 * 8 + 1028) / 8 = 158
    second[64] = 40; // bottom block: (40 * 8 + 1028) / 8 = 168
    w.append_row(0, second).unwrap();
    let plane = w.get_result(0).unwrap();
    assert_eq!(plane.len(), 256);
    assert!(plane[..64].iter().all(|&b| b == 138));
    assert!(plane[64..128].iter().all(|&b| b == 148));
    assert!(plane[128..192].iter().all(|&b| b == 158));
    assert!(plane[192..].iter().all(|&b| b == 168));
}

#[test]
fn get_result_drains_the_slot() {
    let mut w = Worker::new();
    w.start(row_data(0, comp(1, 1, 1), 1)).unwrap();
    w.append_row(0, vec![0i16; 64]).unwrap();
    let full = w.get_result(0).unwrap();
    assert_eq!(full.len(), 64);
    let drained = w.get_result(0).unwrap();
    assert_eq!(drained.len(), 0);
}

#[test]
fn slots_are_independent() {
    let mut w = Worker::new();
    w.start(row_data(0, comp(1, 1, 1), 4)).unwrap();
    w.start(row_data(3, comp(2, 1, 1), 16)).unwrap();
    let mut luma = vec![0i16; 64];
    luma[0] = 100; // (100 * 4 + 1028) / 8 = 178
    w.append_row(0, luma).unwrap();
    let mut chroma = vec![0i16; 128];
    chroma[0] = 8; // (8 * 16 + 1028) / 8 = 144
    w.append_row(3, chroma).unwrap();
    let plane0 = w.get_result(0).unwrap();
    let plane3 = w.get_result(3).unwrap();
    assert_eq!(plane0.len(), 64);
    assert!(plane0.iter().all(|&b| b == 178));
    assert_eq!(plane3.len(), 128);
    assert_eq!(plane3[0], 144);
    assert_eq!(plane3[8], 128);
}

#[test]
fn shared_table_serves_two_workers() {
    let shared = table(16);
    let mut a = Worker::new();
    let mut b = Worker::new();
    a.start(RowData {
        index: 0,
        component: comp(1, 1, 1),
        quantization_table: Arc::clone(&shared),
    })
    .unwrap();
    b.start(RowData {
        index: 0,
        component: comp(1, 1, 1),
        quantization_table: shared,
    })
    .unwrap();
    let mut row = vec![0i16; 64];
    row[0] = 8;
    a.append_row(0, row.clone()).unwrap();
    b.append_row(0, row).unwrap();
    assert_eq!(a.get_result(0).unwrap(), b.get_result(0).unwrap());
}
