use rinha_backend_2026_luckstai_rust::response::{fraud_response_body, response_bytes};

#[test]
fn response_bodies_follow_the_fraud_share() {
    assert_eq!(response_bytes(0), r#"{"approved":true,"fraud_score":0.0}"#);
    assert_eq!(response_bytes(1), r#"{"approved":true,"fraud_score":0.2}"#);
    assert_eq!(response_bytes(2), r#"{"approved":true,"fraud_score":0.4}"#);
    assert_eq!(response_bytes(3), r#"{"approved":false,"fraud_score":0.6}"#);
    assert_eq!(response_bytes(4), r#"{"approved":false,"fraud_score":0.8}"#);
    assert_eq!(response_bytes(5), r#"{"approved":false,"fraud_score":1.0}"#);
    assert_eq!(response_bytes(200), r#"{"approved":false,"fraud_score":1.0}"#);
}

#[test]
fn response_body_exists_only_up_to_five() {
    for count in 0..=5u8 {
        assert_eq!(fraud_response_body(count), Some(response_bytes(count)));
    }
    assert_eq!(fraud_response_body(6), None);
    assert_eq!(fraud_response_body(255), None);
}
