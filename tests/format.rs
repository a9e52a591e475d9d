use kvs::command::Command;
use kvs::engine::{engine_name, parse_engine, select_engine, EngineKind};
use kvs::segment::{log_name, parse_gen, sorted_gen_list};
use kvs::server::{encode_get_reply, encode_unit_reply, KvsServer};
use kvs::{ErrorKind, KvsError};

#[test]
fn set_command_encoding() {
    let c = Command::set("a".to_string(), "1".to_string());
    assert_eq!(c.encode(), "{\"Set\":{\"key\":\"a\",\"value\":\"1\"}}");
    assert_eq!(c.key(), "a");
}

#[test]
fn remove_command_encoding_escapes() {
    let c = Command::remove("q\"u\\o\nte".to_string());
    assert_eq!(c.encode(), "{\"Remove\":{\"key\":\"q\\\"u\\\\o\\nte\"}}");
}

#[test]
fn encoding_matches_derived_serde_layout() {
    let c = Command::set("k é".to_string(), "v\t".to_string());
    let v: serde_json::Value = serde_json::from_str(&c.encode()).unwrap();
    let set = v.get("Set").unwrap();
    assert_eq!(set.get("key").unwrap().as_str().unwrap(), "k é");
    assert_eq!(set.get("value").unwrap().as_str().unwrap(), "v\t");
}

#[test]
fn log_names_round_trip() {
    assert_eq!(log_name(0), "0.log");
    assert_eq!(log_name(42), "42.log");
    assert_eq!(parse_gen("42.log"), Some(42));
    assert_eq!(parse_gen(&log_name(u64::MAX)), Some(u64::MAX));
    assert_eq!(parse_gen("042.log"), None);
    assert_eq!(parse_gen("+4.log"), None);
    assert_eq!(parse_gen("4.txt"), None);
    assert_eq!(parse_gen("engine"), None);
    assert_eq!(parse_gen(".log"), None);
    assert_eq!(parse_gen("18446744073709551616.log"), None);
}

#[test]
fn generation_list_is_sorted_and_filtered() {
    let names: Vec<String> = ["10.log", "engine", "2.log", "x.log", "1.log", "2.log", "3.LOG"]
        .iter()
        .map(|s| s.to_string())
        .collect();
    assert_eq!(sorted_gen_list(&names), vec![1, 2, 10]);
    assert_eq!(sorted_gen_list(&Vec::new()), Vec::<u64>::new());
}

#[test]
fn get_replies() {
    assert_eq!(encode_get_reply(&Ok(Some("1".to_string()))), "{\"Ok\":\"1\"}");
    assert_eq!(encode_get_reply(&Ok(None)), "{\"Ok\":null}");
    assert_eq!(encode_get_reply(&Err(KvsError::not_found())), "{\"Err\":\"Key not found\"}");
}

#[test]
fn unit_replies() {
    assert_eq!(encode_unit_reply(&Ok(())), "{\"Ok\":null}");
    let e = KvsError::new(ErrorKind::Io, "disk \"full\"".to_string());
    assert_eq!(encode_unit_reply(&Err(e)), "{\"Err\":\"disk \\\"full\\\"\"}");
}

#[test]
fn server_keeps_its_engine() {
    let server = KvsServer::new(7u32);
    assert_eq!(server.into_engine(), 7);
}

#[test]
fn engine_names() {
    assert_eq!(engine_name(EngineKind::Kvs), "kvs");
    assert_eq!(engine_name(EngineKind::Sled), "sled");
    assert_eq!(parse_engine("sled"), Some(EngineKind::Sled));
    assert_eq!(parse_engine("kvs"), Some(EngineKind::Kvs));
    assert_eq!(parse_engine("Kvs"), None);
}

#[test]
fn sled_directory_refuses_kvs() {
    let err = select_engine(Some(EngineKind::Sled), Some(EngineKind::Kvs)).unwrap_err();
    assert_eq!(err.kind(), ErrorKind::EngineMismatch);
}

#[test]
fn engine_selection_defaults() {
    assert_eq!(select_engine(None, None).unwrap(), EngineKind::Kvs);
    assert_eq!(select_engine(Some(EngineKind::Sled), None).unwrap(), EngineKind::Sled);
    assert_eq!(select_engine(None, Some(EngineKind::Sled)).unwrap(), EngineKind::Sled);
    assert_eq!(select_engine(Some(EngineKind::Kvs), Some(EngineKind::Kvs)).unwrap(), EngineKind::Kvs);
}
