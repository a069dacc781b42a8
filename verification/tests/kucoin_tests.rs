use data_encoding::{BASE64, HEXLOWER};
use kucoin_arbitrage::arbitrage::{
    contains_stable_coin, create_valid_pairs_catalog, each_appears_twice, find_order_order,
    order_side, order_symbol, ArbOrd,
};
use kucoin_arbitrage::kucoin::{
    base_url, clone_creds, get_headers, lower_hex, method_str, payload_string, request_url,
    response_ok, sign, sign_tag, websocket_url, KucoinCreds, KucoinEnviroment, KucoinRequestType,
    KucoinResponseL2Token,
};

fn strings(v: &[&str]) -> Vec<String> {
    v.iter().map(|s| s.to_string()).collect()
}

fn creds() -> KucoinCreds {
    KucoinCreds {
        api_key: "my-key".to_string(),
        api_passphrase: "my-passphrase".to_string(),
        api_secret: "my-secret".to_string(),
        api_key_version: "2".to_string(),
    }
}

#[test]
fn catalog_of_kucoin_triangles() {
    let tickers = strings(&["ADA-USDT", "ADA-BTC", "BTC-USDT", "ETH-EUR"]);
    let catalog = create_valid_pairs_catalog(&tickers);
    assert_eq!(catalog.len(), 2);
    assert_eq!(catalog[0].0.to_vec(), strings(&["ADA-USDT", "ADA-BTC", "BTC-USDT"]));
    assert_eq!(catalog[0].1.to_vec(), strings(&["ADA", "USDT", "ADA", "BTC", "BTC", "USDT"]));
    assert_eq!(catalog[1].0.to_vec(), strings(&["BTC-USDT", "ADA-BTC", "ADA-USDT"]));
    assert!(create_valid_pairs_catalog(&strings(&["ETH-EUR", "ETHEUR"])).is_empty());
}

#[test]
fn each_name_twice() {
    let ok: [String; 6] = ["A", "B", "B", "C", "C", "A"].map(|s| s.to_string());
    let bad: [String; 6] = ["A", "B", "B", "C", "C", "D"].map(|s| s.to_string());
    assert!(each_appears_twice(&ok));
    assert!(!each_appears_twice(&bad));
    assert!(contains_stable_coin("BTC-USDT"));
    assert!(!contains_stable_coin("BTC-USDC"));
}

#[test]
fn kucoin_legs_and_orders() {
    let route = find_order_order(strings(&["ADA", "USDT", "ADA", "BTC", "BTC", "USDT"]));
    assert_eq!(route.len(), 3);
    assert_eq!(order_symbol(&route[0]), "ADA-USDT");
    assert_eq!(order_side(&route[0]), "buy");
    assert_eq!(order_symbol(&route[1]), "ADA-BTC");
    assert_eq!(order_side(&route[1]), "sell");
    assert_eq!(order_symbol(&route[2]), "BTC-USDT");
    assert_eq!(order_side(&route[2]), "sell");
    let lonely = find_order_order(strings(&["A", "B", "C", "D", "E", "F"]));
    assert!(lonely.is_empty());
    assert_eq!(order_side(&ArbOrd::Buy("X".to_string(), "Y".to_string())), "buy");
}

#[test]
fn methods_and_hosts() {
    assert_eq!(method_str(&KucoinRequestType::Get), "GET");
    assert_eq!(method_str(&KucoinRequestType::Post), "POST");
    assert_eq!(method_str(&KucoinRequestType::OrderPost), "POST");
    assert_eq!(method_str(&KucoinRequestType::WebsocketToken), "POST");
    assert_eq!(base_url(&KucoinEnviroment::Live), "api.kucoin.com");
    assert_eq!(base_url(&KucoinEnviroment::Sandbox), "openapi-sandbox.kucoin.com");
}

#[test]
fn payload_joins_its_parts() {
    assert_eq!(
        payload_string("1700000000000", &KucoinRequestType::OrderPost, "/api/v1/orders", Some("{\"size\":1}")),
        "1700000000000POST/api/v1/orders{\"size\":1}"
    );
    assert_eq!(
        payload_string("1700000000000", &KucoinRequestType::Get, "/api/v1/accounts", None),
        "1700000000000GET/api/v1/accounts"
    );
}

#[test]
fn hex_is_lowercase_two_digits_a_byte() {
    assert_eq!(lower_hex(&[0x00, 0xab, 0x7f, 0x10]), b"00ab7f10".to_vec());
    assert!(lower_hex(&[]).is_empty());
}

#[test]
fn signature_is_base64_of_hex_hmac() {
    let hex = "f7bc83f430538424b13298e6aa6fb143ef4d59a14946175997479dbc2d1a3cd8";
    let expected = BASE64.encode(hex.as_bytes());
    let signed = sign("key", "The quick brown fox jumps over the lazy dog");
    assert_eq!(signed, expected);
    assert_eq!(signed.len(), 88);
    assert_ne!(sign("key", "another message"), expected);
}

#[test]
fn tag_signature_is_base64_of_the_raw_hmac() {
    let hex = "f7bc83f430538424b13298e6aa6fb143ef4d59a14946175997479dbc2d1a3cd8";
    let raw = HEXLOWER.decode(hex.as_bytes()).unwrap();
    let signed = sign_tag("key", "The quick brown fox jumps over the lazy dog");
    assert_eq!(signed, BASE64.encode(&raw));
    assert_eq!(signed, "97yD9DBThCSxMpjmqm+xQ+9NWaFJRhdZl0edvC0aPNg=");
    assert_eq!(signed.len(), 44);
}

#[test]
fn headers_carry_key_signatures_and_timestamp() {
    let c = creds();
    let headers = get_headers(&c, "1700000000000", &KucoinRequestType::Get, "/api/v1/accounts", None);
    let names: Vec<&str> = headers.iter().map(|h| h.0.as_str()).collect();
    assert_eq!(
        names,
        vec!["kc-api-key", "kc-api-sign", "kc-api-timestamp", "kc-api-passphrase", "kc-api-key-version", "charset"]
    );
    assert_eq!(headers[0].1, "my-key");
    assert_eq!(headers[1].1, sign("my-secret", "1700000000000GET/api/v1/accounts"));
    assert_eq!(headers[2].1, "1700000000000");
    assert_eq!(headers[3].1, sign("my-secret", "my-passphrase"));
    assert_eq!(headers[4].1, "2");
    assert_eq!(headers[5].1, "utf-8");
}

#[test]
fn urls_of_endpoints_and_websockets() {
    assert_eq!(
        request_url(&KucoinEnviroment::Live, "/api/v1/accounts"),
        Some("https://api.kucoin.com/api/v1/accounts".to_string())
    );
    assert_eq!(
        request_url(&KucoinEnviroment::Sandbox, "/api/v1/bullet-public"),
        Some("https://openapi-sandbox.kucoin.com/api/v1/bullet-public".to_string())
    );
    assert_eq!(request_url(&KucoinEnviroment::Live, ":bad"), None);
    assert_eq!(
        websocket_url("wss://ws-api-spot.kucoin.com/", "abc"),
        Some("wss://ws-api-spot.kucoin.com/?token=abc".to_string())
    );
    assert_eq!(websocket_url("not a url", "abc"), None);
    // the URL comes back as the crate writes it
    assert_eq!(
        websocket_url("wss://WS-API-SPOT.kucoin.com", "abc"),
        Some("wss://ws-api-spot.kucoin.com/?token=abc".to_string())
    );
    assert_eq!(
        request_url(&KucoinEnviroment::Live, "/api/v2/../v1/orders"),
        Some("https://api.kucoin.com/api/v1/orders".to_string())
    );
}

#[test]
fn responses_and_credentials() {
    assert!(response_ok(200000));
    assert!(!response_ok(400100));
    let copy = clone_creds(&creds());
    assert_eq!(copy.api_key, "my-key");
    assert_eq!(copy.api_passphrase, "my-passphrase");
    assert_eq!(copy.api_secret, "my-secret");
    assert_eq!(copy.api_key_version, "2");
    let server = KucoinResponseL2Token {
        endpoint: "wss://ws-api-spot.kucoin.com/".to_string(),
        encrypt: true,
        pingInterval: 18000,
        pingTimeout: 10000,
    };
    assert_eq!(server.pingInterval, 18000);
}
