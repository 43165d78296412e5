use rust_hotpath_ipc::num::Num;
use rust_hotpath_ipc::pod_types::{AlgorithmType, CreateOrderRequestPOD, OrderType};

fn request() -> CreateOrderRequestPOD {
    CreateOrderRequestPOD {
        timestamp_ns: 1,
        request_id: 2,
        price: 3,
        quantity: 4,
        stop_price: 5,
        client_order_id: 6,
        strategy_id: 7,
        user_id: 8,
        symbol_id: 9,
        strategy_version: 10,
        exchange_id: 11,
        side: 1,
        order_type: OrderType::TWAP.code(),
        time_in_force: 2,
        algorithm_type: AlgorithmType::Direct.code(),
        padding1: 0,
        algorithm_params: [0xEE; 48],
    }
}

#[test]
fn twap_parameters_round_trip() {
    let mut r = request();
    assert_eq!(r.decode_twap_params(), None);
    r.encode_twap_params(0x0102_0304_0506_0708, 0x0A0B_0C0D);
    assert_eq!(r.decode_twap_params(), Some((0x0102_0304_0506_0708, 0x0A0B_0C0D)));
    assert_eq!(r.algorithm_params[0..12], [8, 7, 6, 5, 4, 3, 2, 1, 0x0D, 0x0C, 0x0B, 0x0A]);
    assert_eq!(r.algorithm_params[12..], [0xEE; 36]);
    assert_eq!((r.price, r.quantity, r.order_type), (3, 4, 100));
    assert_eq!(r.decode_vwap_params(), None);
    assert_eq!(r.decode_iceberg_params(), None);
}

#[test]
fn vwap_parameters_round_trip() {
    let mut r = request();
    let rate = Num { bits: 0.125f64.to_bits() };
    r.encode_vwap_params(rate, 3_600);
    assert_eq!(r.decode_vwap_params(), Some((rate, 3_600)));
    assert_eq!(r.algorithm_params[0..8], 0.125f64.to_le_bytes());
    assert_eq!(r.algorithm_params[16..], [0xEE; 32]);
    assert_eq!(r.decode_twap_params(), None);
}

#[test]
fn iceberg_parameters_are_two_quantities() {
    let mut r = request();
    r.algorithm_type = AlgorithmType::Iceberg.code();
    r.algorithm_params[0..8].copy_from_slice(&10u64.to_le_bytes());
    r.algorithm_params[8..16].copy_from_slice(&1_000u64.to_le_bytes());
    assert_eq!(r.decode_iceberg_params(), Some((10, 1_000)));
}

#[test]
fn type_numbers_are_in_their_ranges() {
    assert_eq!(OrderType::Market.code(), 0);
    assert_eq!(OrderType::TrailingStop.code(), 6);
    assert_eq!(OrderType::TargetClose.code(), 105);
    assert_eq!(OrderType::CompiledStrategy.code(), 200);
    assert_eq!(AlgorithmType::POV.code(), 4);
    assert_eq!(AlgorithmType::Compiled.code(), 100);
}
