use needle::config::{EngramGeometry, V2Config};
use needle::engram::{entry_rows, tap_sources, TapSource};
use needle::state::V2State;

fn cfg() -> V2Config {
    V2Config {
        vocab_size: 64,
        d_model: 4,
        num_heads: 2,
        num_kv_heads: 2,
        num_layers: 2,
        head_dim: 2,
        max_seq_len: 32,
        hada_n: 4,
        mhc_lanes: 1,
        rope_theta: 0,
        kv_window: 3,
        engram: EngramGeometry {
            slots: 16,
            sub_dim: 2,
            num_tables: 2,
            conv_taps: 3,
            conv_dilation: 2,
            orders: vec![1, 3],
            sites: vec![0, 1],
        },
    }
}

fn state() -> V2State<u32> {
    V2State::with_cache(&cfg(), 3, 3, 0)
}

fn row(layer: usize, pos: usize) -> Vec<u32> {
    (0..4).map(|i| (1000 * layer + 10 * pos + i) as u32).collect()
}

#[test]
fn a_ring_gives_back_the_rows_of_its_window() {
    let mut s = state();
    for pos in 0..20 {
        for layer in 0..2 {
            let (k, v) = (row(layer, pos), row(layer + 5, pos));
            s.write_kv(layer, pos, &k, &v);
        }
        s.set_history(pos, pos as u32);
        s.advance(1);
        let lo = s.window_lo(pos);
        assert_eq!(lo, pos.saturating_sub(2));
        for layer in 0..2 {
            for p in lo..=pos {
                for head in 0..2 {
                    assert_eq!(s.k_at(layer, head, p), &row(layer, p)[2 * head..2 * head + 2]);
                    assert_eq!(s.v_at(layer, head, p), &row(layer + 5, p)[2 * head..2 * head + 2]);
                }
            }
        }
    }
    assert_eq!(s.pos(), 20);
    assert_eq!(s.history(), (0..20).collect::<Vec<u32>>());
    s.reset();
    assert_eq!(s.pos(), 0);
    assert!(s.k_at(1, 1, 2).iter().all(|x| *x == 0));
}

#[test]
fn a_window_must_fit_the_ring() {
    let mut s = state();
    let c = cfg();
    assert_eq!(s.kv_window(), 3);
    assert!(s.set_kv_window(Some(4), &c).is_err());
    assert!(s.set_kv_window(Some(0), &c).is_err());
    assert_eq!(s.kv_window(), 3);
    assert_eq!(s.set_kv_window(Some(2), &c), Ok(()));
    assert_eq!(s.kv_window(), 2);
    assert_eq!(s.set_kv_window(None, &c), Ok(()));
    assert_eq!(s.kv_window(), 3);
}

#[test]
fn no_window_needs_more_than_the_longest_sequence() {
    let mut c = cfg();
    c.kv_window = c.max_seq_len + 30;
    let mut s: V2State<u32> = V2State::with_cache(&c, c.max_seq_len, c.kv_window, 0);
    assert_eq!(s.set_kv_window(Some(2), &c), Ok(()));
    assert_eq!(s.set_kv_window(None, &c), Ok(()));
    assert_eq!(s.kv_window(), c.max_seq_len + 30);
    assert_eq!(s.set_kv_window(Some(0), &c), Ok(()));
}

#[test]
fn taps_read_the_positions_they_reach_back_to() {
    let c = cfg();
    let mut s = state();
    let value = |pos: usize| (0..4).map(|i| (100 * pos + i) as u32).collect::<Vec<u32>>();
    for pos in 0..9 {
        s.write_memory(1, pos, &value(pos));
    }
    // A chunk of the positions from 9 on.
    let chunk: Vec<u32> = (9..14).flat_map(value).collect();
    for pos in 9..14 {
        for (j, source) in tap_sources(&c.engram, pos, 9).into_iter().enumerate() {
            let at = pos - 2 * j;
            if at >= 9 {
                assert_eq!(source, TapSource::Chunk(at - 9));
            } else {
                assert_eq!(source, TapSource::Ring(at));
            }
            assert_eq!(s.tap_row(1, source, &chunk), Some(&value(at)[..]));
        }
    }
    assert_eq!(
        tap_sources(&c.engram, 3, 3),
        vec![TapSource::Chunk(0), TapSource::Ring(1), TapSource::Skip]
    );
    s.write_memory_chunk(1, 9, 5, &chunk);
    for pos in 7..14 {
        assert_eq!(s.memory_at(1, pos), &value(pos)[..]);
    }
}

#[test]
fn entries_before_the_sequence_are_left_out() {
    let c = cfg();
    let history = [5u32, 6, 7, 8];
    let at = |pos| entry_rows(&c.engram, &history, pos);
    assert!(at(0)[0].is_some());
    assert_eq!(at(0)[1], None);
    assert_eq!(at(1)[1], None);
    assert!(at(2)[1].is_some());
    // The second table stands behind the first.
    assert!((16..32).contains(&at(2)[1].unwrap()));
    // What comes later does not matter.
    assert_eq!(at(2), entry_rows(&c.engram, &[5, 6, 7, 1], 2));
}
