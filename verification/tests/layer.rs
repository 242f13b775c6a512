use anyangle::layer::LayerId;

#[test]
fn layer_ids_round_trip() {
    for x in [0usize, 1, 17, u32::MAX as usize] {
        assert_eq!(usize::from(LayerId::from_usize(x)), x);
    }
    assert_eq!(usize::from(LayerId::lowest()), 0);
    assert_eq!(usize::from(LayerId::highest()), u32::MAX as usize);
    assert!(LayerId::lowest() < LayerId::highest());
    assert_eq!(format!("{:?}", LayerId::from_usize(5)), "LayerId(5)");
}
