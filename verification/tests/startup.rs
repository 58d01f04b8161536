use oxide_engine::addr::parse_bind_addr;
use oxide_engine::addr::BindAddr;
use oxide_engine::startup::finish_startup;
use oxide_engine::startup::log_filter;
use oxide_engine::startup::prepare_server;
use oxide_engine::startup::StartupError;

fn addr(oct0: u8, oct1: u8, oct2: u8, oct3: u8, port: u16) -> BindAddr {
    BindAddr { oct0, oct1, oct2, oct3, port }
}

#[test]
fn parses_the_default_bind_address() {
    assert_eq!(parse_bind_addr("0.0.0.0:3000"), Some(addr(0, 0, 0, 0, 3000)));
}

#[test]
fn parses_ordinary_addresses() {
    assert_eq!(parse_bind_addr("127.0.0.1:80"), Some(addr(127, 0, 0, 1, 80)));
    assert_eq!(parse_bind_addr("10.20.30.40:5"), Some(addr(10, 20, 30, 40, 5)));
    assert_eq!(
        parse_bind_addr("255.255.255.255:65535"),
        Some(addr(255, 255, 255, 255, 65535))
    );
    assert_eq!(parse_bind_addr("1.2.3.4:0"), Some(addr(1, 2, 3, 4, 0)));
}

#[test]
fn rejects_malformed_addresses() {
    assert_eq!(parse_bind_addr(""), None);
    assert_eq!(parse_bind_addr("localhost:80"), None);
    assert_eq!(parse_bind_addr("1.2.3:80"), None);
    assert_eq!(parse_bind_addr("1.2.3.4.5:80"), None);
    assert_eq!(parse_bind_addr("1.2.3.4"), None);
    assert_eq!(parse_bind_addr("1.2.3.4:"), None);
    assert_eq!(parse_bind_addr(":80"), None);
    assert_eq!(parse_bind_addr("1.2.3.4:80x"), None);
    assert_eq!(parse_bind_addr(" 1.2.3.4:80"), None);
    assert_eq!(parse_bind_addr("1.2.3.4:80 "), None);
}

#[test]
fn rejects_out_of_range_components() {
    assert_eq!(parse_bind_addr("256.0.0.1:80"), None);
    assert_eq!(parse_bind_addr("0.0.0.999:80"), None);
    assert_eq!(parse_bind_addr("1.2.3.4:65536"), None);
    assert_eq!(parse_bind_addr("1.2.3.4:111111"), None);
}

#[test]
fn rejects_superfluous_leading_zeros() {
    assert_eq!(parse_bind_addr("01.2.3.4:80"), None);
    assert_eq!(parse_bind_addr("1.2.3.04:80"), None);
    assert_eq!(parse_bind_addr("1.2.3.4:007"), None);
    assert_eq!(parse_bind_addr("0.0.0.0:03000"), None);
}

#[test]
fn startup_fails_fast_without_database_url() {
    let r = prepare_server(None, Some("redis://127.0.0.1/".to_string()), "0.0.0.0:3000");
    assert_eq!(r.err(), Some(StartupError::MissingDatabaseUrl));
}

#[test]
fn startup_fails_fast_without_redis_url() {
    let r = prepare_server(Some("postgres://localhost/app".to_string()), None, "0.0.0.0:3000");
    assert_eq!(r.err(), Some(StartupError::MissingRedisUrl));
}

#[test]
fn startup_rejects_a_bad_cache_url() {
    let r = prepare_server(
        Some("postgres://localhost/app".to_string()),
        Some("not a redis url".to_string()),
        "0.0.0.0:3000",
    );
    assert_eq!(r.err(), Some(StartupError::InvalidCacheUrl));
}

#[test]
fn startup_rejects_a_bad_bind_address() {
    let r = prepare_server(
        Some("postgres://localhost/app".to_string()),
        Some("redis://127.0.0.1/".to_string()),
        "0.0.0.0:99999",
    );
    assert_eq!(r.err(), Some(StartupError::InvalidBindAddr));
}

#[test]
fn startup_succeeds_on_a_full_configuration() {
    let r = prepare_server(
        Some("postgres://localhost/app".to_string()),
        Some("redis://127.0.0.1/".to_string()),
        "0.0.0.0:3000",
    );
    let plan = match r {
        Ok(plan) => plan,
        Err(e) => panic!("startup refused: {:?}", e),
    };
    assert_eq!(plan.database_url, "postgres://localhost/app");
    assert_eq!(plan.addr, addr(0, 0, 0, 0, 3000));
}

#[test]
fn finish_startup_blames_the_cache_url_when_no_client_came() {
    let r = finish_startup("postgres://localhost/app".to_string(), None, "0.0.0.0:3000");
    assert_eq!(r.err(), Some(StartupError::InvalidCacheUrl));
}

#[test]
fn finish_startup_accepts_a_client_and_a_parsed_address() {
    let client = redis::Client::open("redis://127.0.0.1/").unwrap();
    let r = finish_startup("postgres://localhost/app".to_string(), Some(client), "9.8.7.6:54");
    let plan = match r {
        Ok(plan) => plan,
        Err(e) => panic!("startup refused: {:?}", e),
    };
    assert_eq!(plan.database_url, "postgres://localhost/app");
    assert_eq!(plan.addr, addr(9, 8, 7, 6, 54));
}

#[test]
fn finish_startup_rejects_a_bad_address_with_a_client() {
    let client = redis::Client::open("redis://127.0.0.1/").unwrap();
    let r = finish_startup("postgres://localhost/app".to_string(), Some(client), "nowhere");
    assert_eq!(r.err(), Some(StartupError::InvalidBindAddr));
}

#[test]
fn log_filter_defaults_to_info() {
    assert_eq!(log_filter(None), "info");
    assert_eq!(log_filter(Some("debug".to_string())), "debug");
}

#[test]
fn startup_errors_describe_themselves() {
    assert_eq!(StartupError::MissingDatabaseUrl.describe(), "DATABASE_URL must be set");
    assert_eq!(StartupError::MissingRedisUrl.describe(), "REDIS_URL must be set");
    assert_eq!(StartupError::InvalidCacheUrl.describe(), "invalid redis URL");
    assert_eq!(StartupError::InvalidBindAddr.describe(), "invalid bind address");
}
