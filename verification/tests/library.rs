use dobby::cache_log::{decode_log, encode_log, log_size};
use dobby::config::{Router, Settings};
use dobby::executor::{ArgsError, Executor};
use dobby::file_cache::{close_handle, open_handle, CacheLookup, Fetch, FileCache};
use dobby::hash::get_hash;
use dobby::listener::{plan_worker_count, Listener, PlanError, WorkerPlan};
use dobby::numbers::{decimal_string, parse_i32, parse_u16, parse_usize};
use dobby::params::Params;
use dobby::parser::Parser;
use dobby::shared_memory::{get_full_id, is_shared_memory_file, node_segment_id};
use dobby::temperature::{last_temperature, w1_device_path, w1_slave_path, SensorNode, TemperatureArray};
use dobby::text::{line_pieces, split_pieces, trim};
use dobby::worker::{error_404_status_line, ok_200_status_line, Route, Worker};
use std::collections::hash_map::DefaultHasher;
use std::hash::{Hash, Hasher};

fn lines(v: &[&str]) -> Vec<String> {
    v.iter().map(|s| s.to_string()).collect()
}

fn std_hash(s: &str) -> u64 {
    let mut hasher = DefaultHasher::new();
    s.hash(&mut hasher);
    hasher.finish()
}

#[test]
fn params_get_as_str() {
    let p = Params { desc: "string".to_string(), arg: "28-000005".to_string() };
    assert_eq!(p.get_as_str(), "28-000005");
}

#[test]
fn hash_matches_default_hasher() {
    assert_eq!(get_hash("../404.html"), std_hash("../404.html"));
    assert_eq!(get_hash("a"), get_hash("a"));
    assert_ne!(get_hash("a"), get_hash("b"));
}

#[test]
fn segment_names() {
    assert_eq!(get_full_id(42), "dobby.42");
    assert_eq!(get_full_id(0), "dobby.0");
    assert_eq!(get_full_id(u64::MAX), "dobby.18446744073709551615");
    assert_eq!(node_segment_id(7), std_hash("7"));
    assert!(is_shared_memory_file("dobby.42"));
    assert!(is_shared_memory_file(&get_full_id(12345)));
    assert!(!is_shared_memory_file("dobbyx42"));
    assert!(!is_shared_memory_file("other.txt"));
}

#[test]
fn decimal_and_parse() {
    assert_eq!(decimal_string(0), "0");
    assert_eq!(decimal_string(1234567890), "1234567890");
    assert_eq!(parse_usize("12"), Some(12));
    assert_eq!(parse_usize("+12"), Some(12));
    assert_eq!(parse_usize("12a"), None);
    assert_eq!(parse_usize(""), None);
    assert_eq!(parse_usize("+"), None);
    assert_eq!(parse_usize("-0"), None);
    assert_eq!(parse_usize(" 1"), None);
    assert_eq!(parse_u16("65535"), Some(65535));
    assert_eq!(parse_u16("65536"), None);
    assert_eq!(parse_u16("0000000000000000000007"), Some(7));
    assert_eq!(parse_i32("-2147483648"), Some(i32::MIN));
    assert_eq!(parse_i32("2147483647"), Some(i32::MAX));
    assert_eq!(parse_i32("2147483648"), None);
    assert_eq!(parse_i32("-"), None);
    assert_eq!(parse_i32("-+1"), None);
    assert_eq!(parse_i32("+23125"), Some(23125));
    for n in [0u64, 9, 10, 65535, 1 << 40] {
        assert_eq!(parse_usize(&decimal_string(n)), Some(n as usize));
    }
}

#[test]
fn text_helpers() {
    assert_eq!(split_pieces("a,,b", ','), vec!["a", "", "b"]);
    assert_eq!(split_pieces("", ','), vec![""]);
    assert_eq!(split_pieces("a,", ','), vec!["a", ""]);
    assert_eq!(line_pieces("a\r\nb\n"), vec!["a", "b"]);
    assert_eq!(line_pieces("a\n\nb"), vec!["a", "", "b"]);
    assert_eq!(line_pieces("a\r"), vec!["a\r"]);
    assert_eq!(line_pieces(""), Vec::<&str>::new());
    assert_eq!(line_pieces("\n"), vec![""]);
}

#[test]
fn settings_load_and_get() {
    let s = Settings::new(&lines(&[
        "nodes_count = 10",
        " file_cache_name=cache ",
        "nodes_count= 20",
        "empty =",
        "a = b = c",
        "  \t spaced \u{3000}=\u{a0} x y \r",
    ]));
    assert_eq!(s.get("spaced"), "x y");
    assert_eq!(s.get("nodes_count"), "20");
    assert_eq!(s.get("file_cache_name"), "cache");
    assert_eq!(s.get("empty"), "");
    assert_eq!(s.get("a"), "b = c");
    assert_eq!(s.get_option("missing"), None);
    assert_eq!(s.get_option("nodes_count").map(|v| v.as_str()), Some("20"));
}

#[test]
fn parser_reads_target() {
    let w = Worker::new("404.html".to_string(), Router::new(&Vec::new()));
    assert_eq!(w.real_message_by_get(" /hello/world HTTP/1.1"), ("hello", "world"));
    assert_eq!(w.real_message_by_get(" /hello HTTP/1.1"), ("hello", ""));
    assert_eq!(w.real_message_by_get(" /a/b/c"), ("a", "b/c"));
    assert_eq!(w.real_message_by_get("x"), ("", ""));
    assert_eq!(w.real_message_by_get(""), ("", ""));
    assert_eq!(w.real_message_by_get(" / HTTP"), ("", ""));
}

#[test]
fn worker_routes_requests() {
    let router = Router::new(&lines(&["hello = core.send_file(string)", "temp = gpio.get_temperatures()"]));
    let w = Worker::new("404.html".to_string(), router);
    match w.process_message("GET /Hello/Index.HTML HTTP/1.1") {
        Route::Run { action, args } => {
            assert_eq!(action, "core.send_file(string)");
            assert_eq!(args, "index.html");
        }
        Route::NotFound => panic!("expected a route"),
    }
    // a POST target is read from the fourth byte on, so its first character
    // ('T') is dropped in place of the '/', and the function name is empty
    assert_eq!(w.real_message_by_get("T /temp HTTP/1.1"), ("", "temp"));
    assert!(matches!(w.process_message("POST /temp HTTP/1.1"), Route::NotFound));
    match w.process_message("GET /temp HTTP/1.1") {
        Route::Run { action, args } => {
            assert_eq!(action, "gpio.get_temperatures()");
            assert_eq!(args, "");
        }
        Route::NotFound => panic!("expected a route"),
    }
    match w.process_message("GET /HELLO/ÀB HTTP/1.1") {
        Route::Run { args, .. } => assert_eq!(args, "àb"),
        Route::NotFound => panic!("expected a route"),
    }
    assert!(matches!(w.process_message("GET /unknown HTTP/1.1"), Route::NotFound));
    assert!(matches!(w.process_message("RUN /hello HTTP/1.1"), Route::NotFound));
    assert!(matches!(w.process_message("PUT /hello HTTP/1.1"), Route::NotFound));
    assert_eq!(ok_200_status_line(), "HTTP/1.1 200 OK\r\n\r\n");
    assert_eq!(error_404_status_line(), "HTTP/1.1 404 NOT FOUND\r\n\r\n");
    assert_eq!(Worker::make_response(ok_200_status_line(), "body"), "HTTP/1.1 200 OK\r\n\r\nbody");
}

#[test]
fn executor_splits_actions() {
    assert_eq!(Executor::split_action("gpio.get_w1(string)"), ("gpio", "get_w1(string)"));
    assert_eq!(Executor::split_action("a.b.c"), ("a", "b.c"));
    assert_eq!(Executor::split_method("get_w1( string , int )"), ("get_w1", "string , int"));
    assert_eq!(Executor::split_method("f(x"), ("f", "x"));
    let args = Executor::create_args("string,int", "a,5").unwrap();
    assert_eq!(args.len(), 2);
    assert_eq!(args[0].desc, "string");
    assert_eq!(args[0].arg, "a");
    assert_eq!(args[1].desc, "int");
    assert_eq!(args[1].arg, "5");
    let err = Executor::create_args("string", "a,b").err().unwrap();
    assert_eq!(err, ArgsError::SizeMismatch);
    assert_eq!(err.description(), "Description arguments and arguments have different size!");
    let one = Executor::create_args("", "").unwrap();
    assert_eq!(one.len(), 1);
    let e = Executor::new(&lines(&["send_file = string"]));
    let (lib, method, params) = e.get_params("core.send_file(string)", "index.html");
    assert_eq!((lib, method), ("core", "send_file"));
    let params = params.unwrap();
    assert_eq!(params[0].get_as_str(), "index.html");
    let (_, _, none) = e.get_params("core.send_file(string)", "a,b");
    assert!(none.is_none());
    assert_eq!(Executor::library_file_name("gpio"), "libgpio.so");
}

#[test]
fn listener_round_robin() {
    let mut l = Listener::new(Settings::new(&lines(&["max_worker_count = 3"])));
    l.worker_vec = vec![100, 200, 300];
    l.socket_vec = vec![10, 20, 30];
    assert_eq!(l.handle_client(""), None);
    assert_eq!(l.current_worker, 0);
    let mut seen = Vec::new();
    for _ in 0..6 {
        let (socket, line) = l.handle_client("GET / HTTP/1.1\r\nHost: x\r\n\r\n").unwrap();
        assert_eq!(line, "GET / HTTP/1.1\r");
        seen.push(socket);
    }
    assert_eq!(seen, vec![10, 20, 30, 10, 20, 30]);
    assert_eq!(l.current_worker, 0);
    assert_eq!(l.handle_client("no newline").unwrap().1, "no newline");
}

#[test]
fn worker_plans() {
    let four = "4".to_string();
    let big = "100".to_string();
    let bad = "x".to_string();
    assert_eq!(plan_worker_count(0, Some(&four)), Err(PlanError::NoCpus));
    assert_eq!(plan_worker_count(1, Some(&four)), Ok(WorkerPlan::TooFewCores(1)));
    assert_eq!(plan_worker_count(2, Some(&four)), Ok(WorkerPlan::TooFewCores(2)));
    assert_eq!(plan_worker_count(3, None), Err(PlanError::MissingMaxWorkerCount));
    assert_eq!(plan_worker_count(3, Some(&bad)), Err(PlanError::BadMaxWorkerCount));
    assert_eq!(plan_worker_count(8, Some(&four)), Ok(WorkerPlan::Start(4)));
    assert_eq!(plan_worker_count(8, Some(&big)), Ok(WorkerPlan::Start(7)));
    assert_eq!(plan_worker_count(65537, Some(&four)), Ok(WorkerPlan::TooFewCores(1)));
    let l = Listener::new(Settings::new(&lines(&["max_worker_count = 2"])));
    let (cpus, plan) = l.plan_workers();
    assert_eq!(plan, plan_worker_count(cpus, Some(&"2".to_string())));
}

#[test]
fn temperatures() {
    let reading = "72 01 4b 46 7f ff 0e 10 57 : crc=57 YES\n72 01 4b 46 7f ff 0e 10 57 t=23125\n";
    assert_eq!(last_temperature(reading), Some(23125));
    assert_eq!(last_temperature("t=-1062\n"), Some(-1062));
    assert_eq!(last_temperature("no reading"), None);
    assert_eq!(last_temperature("t=12\nt=oops\n"), None);
    assert_eq!(last_temperature("t=oops\nt=12"), Some(12));
    assert_eq!(last_temperature("t=5\r\n"), Some(5));
    assert_eq!(last_temperature("a t=7 t=8"), None);
    let params = vec![Params { desc: "string".to_string(), arg: "28-0001".to_string() }];
    assert_eq!(w1_device_path(&params), "/sys/bus/w1/devices/28-0001/w1_slave");
    let array = TemperatureArray::new(vec![
        SensorNode { device_name: "28-1".to_string(), caption: "outside".to_string() },
        SensorNode { device_name: "28-2".to_string(), caption: "inside".to_string() },
    ]);
    let r = array.get(&vec!["t=21500\n".to_string(), "broken".to_string()]);
    assert_eq!(r.len(), 2);
    assert_eq!(r[0].milli_celsius, Some(21500));
    assert_eq!(r[0].caption, "outside");
    assert_eq!(r[1].milli_celsius, None);
    assert_eq!(r[1].caption, "inside");
    assert_eq!(array.get_other(), "");
}

#[test]
fn file_cache_insert_and_lookup() {
    let mut c = FileCache::new(3);
    assert!(matches!(c.lookup(5, 0, None), CacheLookup::Miss));
    c.insert(50, "fifty".to_string(), 100);
    c.insert(20, "twenty".to_string(), 100);
    assert_eq!(c.node_index(20), Some(1));
    c.insert(70, "seventy".to_string(), 100);
    assert!(c.is_full());
    assert_eq!(c.len(), 3);
    assert_eq!(c.get(20), Some("twenty".to_string()));
    assert_eq!(c.get(50), Some("fifty".to_string()));
    assert_eq!(c.get(70), Some("seventy".to_string()));
    assert_eq!(c.get(90), None);
    match c.lookup(20, 150, Some(100)) {
        CacheLookup::Hit(d) => assert_eq!(d, "twenty"),
        _ => panic!("expected a hit"),
    }
    assert!(matches!(c.lookup(20, 200, Some(100)), CacheLookup::Stale));
    assert!(matches!(c.lookup(20, 100, Some(0)), CacheLookup::Stale));
    assert!(matches!(c.lookup(20, 50, Some(1)), CacheLookup::Hit(_)));
    assert!(c.refresh(20, "new twenty".to_string(), 300));
    assert!(!c.refresh(21, "x".to_string(), 300));
    assert_eq!(c.get(20), Some("new twenty".to_string()));
    assert!(matches!(c.lookup(20, 350, Some(100)), CacheLookup::Hit(_)));
}

#[test]
fn file_cache_release_order_is_breadth_first() {
    let mut c = FileCache::new(10);
    for h in [50u64, 30, 70, 20, 40, 60, 80, 10] {
        c.insert(h, h.to_string(), 0);
    }
    // nodes are numbered in insertion order: 50->0, 30->1, 70->2, 20->3, 40->4, 60->5, 80->6, 10->7
    assert_eq!(c.release_order(), vec![0, 1, 2, 3, 4, 5, 6, 7]);
    let mut d = FileCache::new(10);
    for h in [1u64, 2, 3] {
        d.insert(h, String::new(), 0);
    }
    assert_eq!(d.release_order(), vec![0, 1, 2]);
    assert_eq!(FileCache::new(4).release_order(), Vec::<usize>::new());
    let mut e = FileCache::new(10);
    for h in [5u64, 9, 1, 7] {
        e.insert(h, String::new(), 0);
    }
    assert_eq!(e.release_order(), vec![0, 2, 1, 3]);
}

#[test]
fn file_cache_fetch_protocol() {
    let mut c = FileCache::new(2);
    assert!(matches!(c.begin_fetch(7, 0, None), Fetch::Load));
    assert_eq!(c.load_file_to_cache(7, None, 0), None);
    assert_eq!(c.len(), 0);
    assert_eq!(c.load_file_to_cache(7, Some("v1".to_string()), 0), Some("v1".to_string()));
    match c.begin_fetch(7, 10, None) {
        Fetch::Answer(d) => assert_eq!(d, "v1"),
        _ => panic!("expected the cached contents"),
    }
    assert!(matches!(c.begin_fetch(7, 10, Some(0)), Fetch::Reload));
    assert!(c.refresh(7, "v2".to_string(), 10));
    assert_eq!(c.get(7), Some("v2".to_string()));
    assert_eq!(c.load_file_to_cache(8, Some("other".to_string()), 20), Some("other".to_string()));
    assert!(c.is_full());
    assert_eq!(c.get(7), Some("v2".to_string()));
}

#[test]
fn file_cache_insert_links() {
    let mut c = FileCache::new(5);
    c.insert(50, String::new(), 0);
    c.insert(70, String::new(), 0);
    c.insert(60, String::new(), 0);
    // 60 goes right of 50, then left of 70: the order from the root is 50, 70, 60
    assert_eq!(c.release_order(), vec![0, 1, 2]);
    c.insert(40, String::new(), 0);
    assert_eq!(c.release_order(), vec![0, 3, 1, 2]);
}

#[test]
fn file_cache_from_settings() {
    let (c, ids) = FileCache::from_settings(&Settings::new(&lines(&[
        "nodes_count = 16",
        "file_cache_name = tree",
        "file_cache_node_count_name = count",
        "file_cache_counter_name = counter",
    ])));
    assert_eq!(c.max_nodes(), 16);
    assert_eq!(c.len(), 0);
    assert_eq!(ids.tree, std_hash("tree"));
    assert_eq!(ids.node_count, std_hash("count"));
    assert_eq!(ids.counter, std_hash("counter"));
}

#[test]
fn file_cache_handles() {
    assert_eq!(open_handle(0), (true, 1));
    assert_eq!(open_handle(3), (false, 4));
    assert_eq!(close_handle(1, 5), (true, 0));
    assert_eq!(close_handle(1, 0), (false, 0));
    assert_eq!(close_handle(2, 5), (false, 1));
    let (_, opened) = open_handle(7);
    assert_eq!(close_handle(opened, 1).1, 7);
}

#[test]
fn file_cache_node_index() {
    let mut c = FileCache::new(4);
    for h in [40u64, 10, 90] {
        c.insert(h, String::new(), 0);
    }
    assert_eq!(c.node_index(40), Some(0));
    assert_eq!(c.node_index(10), Some(1));
    assert_eq!(c.node_index(90), Some(2));
    assert_eq!(c.node_index(11), None);
}

#[test]
fn w1_paths() {
    assert_eq!(w1_slave_path("28-0002"), "/sys/bus/w1/devices/28-0002/w1_slave");
}

#[test]
fn file_cache_reload_scenario() {
    let test_text_1 = "1111111111111111";
    let test_text_2 = "111111111";
    let test_text_3 = "111111111444444444444444";
    let name = "/tmp/test_get_file_with_reload.txt";
    let hash = get_hash(name);
    let mut cache = FileCache::new(10);
    // first read: not cached, so the file is read and stored
    assert!(matches!(cache.begin_fetch(hash, 0, None), Fetch::Load));
    assert_eq!(cache.load_file_to_cache(hash, Some(test_text_1.to_string()), 0), Some(test_text_1.to_string()));
    // the file changed; without a reload period the cached text is answered
    match cache.begin_fetch(hash, 5, None) {
        Fetch::Answer(d) => assert_eq!(d, test_text_1),
        _ => panic!("expected the cached text"),
    }
    // with a reload period of zero it is read again, shorter, then longer
    assert!(matches!(cache.begin_fetch(hash, 5, Some(0)), Fetch::Reload));
    assert!(cache.refresh(hash, test_text_2.to_string(), 5));
    assert_eq!(cache.get(hash), Some(test_text_2.to_string()));
    assert!(matches!(cache.begin_fetch(hash, 6, Some(0)), Fetch::Reload));
    assert!(cache.refresh(hash, test_text_3.to_string(), 6));
    assert_eq!(cache.get(hash), Some(test_text_3.to_string()));
    assert_eq!(cache.len(), 1);
}

#[test]
fn text_trim() {
    assert_eq!(trim("  \t x y \u{3000}"), "x y");
    assert_eq!(trim("   "), "");
    assert_eq!(trim("a"), "a");
}

#[test]
fn cache_log_round_trip() {
    let es: Vec<(u64, u128)> = vec![(1, 2), (0x0102_0304_0506_0708, (7u128 << 64) + 9)];
    let bytes = encode_log(&es);
    assert_eq!(bytes.len(), 48);
    assert_eq!(&bytes[0..8], &[1, 0, 0, 0, 0, 0, 0, 0]);
    assert_eq!(&bytes[8..16], &[2, 0, 0, 0, 0, 0, 0, 0]);
    assert_eq!(&bytes[24..32], &[8, 7, 6, 5, 4, 3, 2, 1]);
    assert_eq!(&bytes[32..40], &[9, 0, 0, 0, 0, 0, 0, 0]);
    assert_eq!(&bytes[40..48], &[7, 0, 0, 0, 0, 0, 0, 0]);
    assert_eq!(decode_log(&bytes, 2), Some(es.clone()));
    assert_eq!(decode_log(&bytes, 1), Some(vec![(1, 2)]));
    assert_eq!(decode_log(&bytes, 3), None);
    assert_eq!(decode_log(&Vec::new(), 0), Some(Vec::new()));
    assert_eq!(log_size(16), Some(384));
    assert_eq!(log_size(usize::MAX), None);
}

#[test]
fn file_cache_rebuild_from_entries() {
    let mut c = FileCache::new(4);
    c.insert(50, "a".to_string(), 10);
    c.insert(70, "b".to_string(), 11);
    c.insert(60, "c".to_string(), 12);
    let es = c.entries();
    assert_eq!(es, vec![(50, 10), (70, 11), (60, 12)]);
    let data = vec!["a".to_string(), "b".to_string(), "c".to_string()];
    let decoded = decode_log(&encode_log(&es), 3).unwrap();
    let r = FileCache::rebuild(4, &decoded, &data).unwrap();
    assert_eq!(r.entries(), es);
    assert_eq!(r.release_order(), c.release_order());
    assert_eq!(r.get(70), Some("b".to_string()));
    assert!(matches!(r.lookup(60, 12, Some(5)), CacheLookup::Hit(ref d) if d == "c"));
    assert!(FileCache::rebuild(2, &decoded, &data).is_none());
    assert!(FileCache::rebuild(4, &decoded, &data[..2].to_vec()).is_none());
    assert!(FileCache::rebuild(4, &vec![(5, 0), (5, 1)], &vec![String::new(), String::new()]).is_none());
}

#[test]
fn file_cache_refresh_updates_entry() {
    let mut c = FileCache::new(3);
    c.insert(5, "old".to_string(), 1);
    c.insert(9, "x".to_string(), 2);
    assert!(c.refresh(5, "new".to_string(), 7));
    assert_eq!(c.entries(), vec![(5, 7), (9, 2)]);
    assert!(!c.refresh(6, "y".to_string(), 8));
    assert_eq!(c.entries(), vec![(5, 7), (9, 2)]);
}

#[test]
fn file_cache_two_handles_share() {
    let files = ["../404.html", "../source/hello.html", "../worker.cfg", "../file_cache.cfg"];
    let mut first = FileCache::new(8);
    let mut data = Vec::new();
    for (k, f) in files.iter().enumerate() {
        let contents = format!("contents of {}", f);
        let h = get_hash(f);
        assert!(matches!(first.begin_fetch(h, k as u128, None), Fetch::Load));
        assert_eq!(first.load_file_to_cache(h, Some(contents.clone()), k as u128), Some(contents.clone()));
        data.push(contents);
    }
    let bytes = encode_log(&first.entries());
    let records = decode_log(&bytes, first.len()).unwrap();
    let second = FileCache::rebuild(8, &records, &data).unwrap();
    for (k, f) in files.iter().enumerate() {
        let h = get_hash(f);
        assert!(matches!(second.begin_fetch(h, 100, None), Fetch::Answer(ref d) if *d == data[k]));
        assert_eq!(second.get(h), first.get(h));
    }
    assert_eq!(second.release_order(), first.release_order());
}
