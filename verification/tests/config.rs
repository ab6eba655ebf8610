use needle::config::{EngramGeometry, V2Config};

fn cfg() -> V2Config {
    V2Config {
        vocab_size: 8192,
        d_model: 512,
        num_heads: 8,
        num_kv_heads: 4,
        num_layers: 27,
        head_dim: 64,
        max_seq_len: 2048,
        hada_n: 512,
        mhc_lanes: 4,
        rope_theta: 100000.0f32.to_bits(),
        kv_window: 256,
        engram: EngramGeometry {
            slots: 8192,
            sub_dim: 128,
            num_tables: 4,
            conv_taps: 4,
            conv_dilation: 3,
            orders: vec![2, 3],
            sites: vec![2, 15],
        },
    }
}

#[test]
fn shipped_geometry_validates() {
    let c = cfg();
    assert_eq!(c.validate(), Ok(()));
    assert_eq!(c.attn_dim(), 512);
    assert_eq!(c.kv_dim(), 256);
    assert_eq!(c.kv_repeat(), 2);
    assert_eq!(c.mhc_width(), 2048);
    assert_eq!(c.engram.heads(), 2);
    assert_eq!(c.engram.fetched_dim(), 512);
    assert_eq!(c.engram.window(), 12);
    assert_eq!(c.engram.site_of_layer(2), Some(0));
    assert_eq!(c.engram.site_of_layer(15), Some(1));
    assert_eq!(c.engram.site_of_layer(3), None);
}

#[test]
fn mhc_lane_offsets_match_reference_formulas() {
    let c = cfg();
    for layer in 0..c.num_layers {
        for lane in 0..c.mhc_lanes {
            let onehot = f32::from(lane == layer % c.mhc_lanes);
            assert_eq!(f32::from_bits(c.pre_off(layer, lane)), 8.0 * onehot - 4.0);
            assert_eq!(f32::from_bits(c.post_off(layer, lane)), -4.0 * (1.0 - onehot));
        }
    }
}

#[test]
fn validate_rejects_broken_geometry() {
    let mut c = cfg();
    c.num_kv_heads = 3;
    assert!(c.validate().is_err());

    let mut c = cfg();
    c.head_dim = 63;
    assert!(c.validate().is_err());

    let mut c = cfg();
    c.hada_n = 256;
    assert!(c.validate().is_err());

    let mut c = cfg();
    c.engram.sites = vec![2, 99];
    assert!(c.validate().is_err());

    let mut c = cfg();
    c.engram.sub_dim = 64;
    assert!(c.validate().is_err());
}

#[test]
fn every_fault_of_a_geometry_is_named() {
    let fault = |edit: fn(&mut V2Config)| {
        let mut c = cfg();
        edit(&mut c);
        c.validate().err()
    };
    assert_eq!(fault(|c| c.num_heads = 0), Some("head counts must be non-zero"));
    assert_eq!(
        fault(|c| c.num_kv_heads = 3),
        Some("num_heads must be divisible by num_kv_heads")
    );
    assert_eq!(
        fault(|c| c.head_dim = 63),
        Some("head_dim must be even (RoPE rotates half-splits)")
    );
    assert_eq!(
        fault(|c| c.mhc_lanes = 0),
        Some("d_model, mhc_lanes and num_layers must be non-zero")
    );
    assert_eq!(
        fault(|c| c.hada_n = 768),
        Some("hada_n must be a power of two at or above d_model")
    );
    assert_eq!(
        fault(|c| c.vocab_size = 0),
        Some("vocab_size and max_seq_len must be non-zero")
    );
    assert_eq!(fault(|c| c.engram.slots = 0), Some("engram geometry incomplete"));
    assert_eq!(
        fault(|c| c.engram.orders = vec![2, 3, 4]),
        Some("num_tables must be divisible by the order count")
    );
    assert_eq!(fault(|c| c.engram.sites = vec![2, 27]), Some("engram site beyond num_layers"));
    assert_eq!(
        fault(|c| c.engram.sub_dim = 64),
        Some("engram fetched_dim must equal d_model")
    );
}

#[test]
fn sizes_that_cannot_be_counted_are_told() {
    let c = cfg();
    assert!(c.state_can_be_counted(256));
    assert!(c.widths_can_be_counted());
    assert!(c.cells_can_be_counted());
    assert!(!c.state_can_be_counted(usize::MAX));
    let mut c = cfg();
    c.max_seq_len = usize::MAX;
    assert!(!c.cells_can_be_counted());
}
