use rust_web::auth::{Authentication, TokenCheck};
use rust_web::interface::FileList;
use rust_web::json::{message_json, string_array_json};
use rust_web::numbers::{i32_to_string, parse_i32, reduce, sum_texts};
use rust_web::pages::{
    ends_with, file_message_json, post_reply, render_sum_page, replace_str, route, Action,
};
use rust_web::query::{query_str_to_map, try_query_str_to_map};
use rust_web::response::Response;
use rust_web::status::Status;
use rust_web::text::chars_of;
use rust_web::users::{
    apply_update, create_reply, delete_reply, get_reply, update_reply, update_target, UpdateUserRequest, User,
};

fn user(id: i32) -> User {
    User {
        id,
        username: "ann".to_string(),
        password: "pw".to_string(),
        email: "ann@example.com".to_string(),
    }
}

#[test]
fn status_from_u16_accepts_valid_codes() {
    assert_eq!(Status::from_u16(200).unwrap().as_u16(), 200);
    assert_eq!(Status::from_u16(100).unwrap().as_u16(), 100);
    assert_eq!(Status::from_u16(999).unwrap().as_u16(), 999);
    assert!(Status::from_u16(99).is_none());
    assert!(Status::from_u16(1000).is_none());
    assert!(Status::from_u16(0).is_none());
}

#[test]
fn status_constants() {
    assert_eq!(Status::ok().as_u16(), 200);
    assert_eq!(Status::unauthorized().as_u16(), 401);
    assert_eq!(Status::not_found().as_u16(), 404);
    assert_eq!(Status::internal_server_error().as_u16(), 500);
}

#[test]
fn response_constructors() {
    let r = Response::success("done".to_string());
    assert_eq!((r.code, r.msg.as_str(), r.data.as_str()), (200, "success", "done"));
    let r: Response<String> = Response::server_error("boom".to_string());
    assert_eq!((r.code, r.msg.as_str(), r.data.as_str()), (500, "boom", ""));
    let r: Response<Vec<i32>> = Response::not_found("not found".to_string());
    assert_eq!((r.code, r.msg.as_str(), r.data.len()), (404, "not found", 0));
    let r: Response<()> = Response::unauthorized("token is None".to_string());
    assert_eq!((r.code, r.msg.as_str()), (401, "token is None"));
    let r = Response::new(Status::from_u16(201).unwrap(), "made".to_string(), 7u8);
    assert_eq!((r.code, r.msg.as_str(), r.data), (201, "made", 7));
}

#[test]
fn response_setters_change_one_field() {
    let mut r = Response::success(1i32);
    r.set_code(Status::not_found());
    assert_eq!((r.code, r.msg.as_str(), r.data), (404, "success", 1));
    r.set_msg("gone".to_string());
    assert_eq!((r.code, r.msg.as_str(), r.data), (404, "gone", 1));
    r.set_data(5);
    assert_eq!((r.code, r.msg.as_str(), r.data), (404, "gone", 5));
}

#[test]
fn response_http_status_falls_back_to_500() {
    let mut r = Response::success(());
    assert_eq!(r.http_status().as_u16(), 200);
    r.code = 42;
    assert_eq!(r.http_status().as_u16(), 500);
    r.code = 1000;
    assert_eq!(r.http_status().as_u16(), 500);
    r.code = 418;
    assert_eq!(r.http_status().as_u16(), 418);
}

#[test]
fn query_map_reads_pairs() {
    let m = query_str_to_map("a=1&b=2");
    assert_eq!(m.len(), 2);
    assert_eq!(m.get("a"), Some("1"));
    assert_eq!(m.get("b"), Some("2"));
    assert_eq!(m.get("c"), None);
    assert_eq!(m.values(), vec!["1", "2"]);
}

#[test]
fn query_map_later_value_wins() {
    let m = query_str_to_map("x=1&y=2&x=3");
    assert_eq!(m.len(), 2);
    assert_eq!(m.get("x"), Some("3"));
    assert_eq!(m.values(), vec!["3", "2"]);
}

#[test]
fn query_map_value_ends_at_next_equals() {
    let m = query_str_to_map("k=a=b&e=");
    assert_eq!(m.get("k"), Some("a"));
    assert_eq!(m.get("e"), Some(""));
}

#[test]
fn query_map_refuses_piece_without_equals() {
    assert!(try_query_str_to_map("a=1&b").is_none());
    assert!(try_query_str_to_map("").is_none());
    assert!(try_query_str_to_map("a=1&").is_none());
    assert!(try_query_str_to_map("=1").is_some());
}

#[test]
fn parse_i32_cases() {
    assert_eq!(parse_i32("42"), Some(42));
    assert_eq!(parse_i32("-17"), Some(-17));
    assert_eq!(parse_i32("+8"), Some(8));
    assert_eq!(parse_i32("007"), Some(7));
    assert_eq!(parse_i32("2147483647"), Some(i32::MAX));
    assert_eq!(parse_i32("-2147483648"), Some(i32::MIN));
    assert_eq!(parse_i32("2147483648"), None);
    assert_eq!(parse_i32("99999999999999999999"), None);
    assert_eq!(parse_i32(""), None);
    assert_eq!(parse_i32("-"), None);
    assert_eq!(parse_i32("1a"), None);
    assert_eq!(parse_i32(" 1"), None);
}

#[test]
fn parse_i32_agrees_with_std() {
    for s in ["0", "-0", "+0", "12", "-2147483649", "3.5", "--1", "+-1", "1_000", "١"] {
        assert_eq!(parse_i32(s), s.parse::<i32>().ok(), "{}", s);
    }
}

#[test]
fn i32_to_string_cases() {
    for x in [0, 7, 10, 42, -1, -100, i32::MAX, i32::MIN, 1234567890] {
        assert_eq!(i32_to_string(x), x.to_string());
        assert_eq!(parse_i32(&i32_to_string(x)), Some(x));
    }
}

#[test]
fn reduce_folds_in_order() {
    assert_eq!(reduce(vec![1, 2, 3, 4], |cur: i32, item: i32| cur * 10 + item, 0), 1234);
    assert_eq!(reduce(Vec::<i32>::new(), |cur: i32, item: i32| cur + item, 9), 9);
    let words = reduce(vec!["a", "b"], |cur: String, item: &str| cur + item, String::from(">"));
    assert_eq!(words, ">ab");
}

#[test]
fn sum_texts_cases() {
    assert_eq!(sum_texts(&vec!["1", "2", "3"]), Some(6));
    assert_eq!(sum_texts(&vec![]), Some(0));
    assert_eq!(sum_texts(&vec!["1", "x"]), None);
    assert_eq!(sum_texts(&vec!["2147483647", "1"]), None);
    assert_eq!(sum_texts(&vec!["2147483647", "-1", "1"]), Some(2147483647));
}

#[test]
fn json_message_escapes() {
    assert_eq!(message_json("hi"), "{\"message\":\"hi\"}");
    assert_eq!(message_json("a\"b\\c\nd\u{1}"), "{\"message\":\"a\\\"b\\\\c\\nd\\u0001\"}");
    let mut object = serde_json::Map::new();
    object.insert("message".to_string(), serde_json::Value::String("a\"b".to_string()));
    assert_eq!(message_json("a\"b"), serde_json::Value::Object(object).to_string());
}

#[test]
fn json_string_array_cases() {
    assert_eq!(string_array_json(&vec![]), "[]");
    assert_eq!(string_array_json(&vec!["a".to_string()]), "[\"a\"]");
    let items = vec!["./x".to_string(), "tab\there".to_string(), "q\"".to_string()];
    assert_eq!(string_array_json(&items), serde_json::to_string(&items).unwrap());
}

#[test]
fn post_reply_accepts_only_json_documents() {
    assert_eq!(post_reply(b" [1, 2] ".to_vec()), Some(" [1, 2] ".to_string()));
    assert_eq!(post_reply(b"{a: 1}".to_vec()), None);
    assert_eq!(post_reply(Vec::new()), None);
    assert_eq!(post_reply("\"中\"".as_bytes().to_vec()), Some("\"中\"".to_string()));
}

#[test]
fn route_fixed_pages() {
    assert_eq!(route("/test", None), Action::SendTest);
    assert_eq!(route("/test", Some("a=1")), Action::SendTest);
    assert_eq!(route("/Test.html", None), Action::SendFile("./test.html".to_string()));
    assert_eq!(route("/test", Some("a")), Action::Abort);
    assert_eq!(route("/home", None), Action::SendFile("./home.html".to_string()));
    assert_eq!(route("/HOME", None), Action::SendFile("./home.html".to_string()));
    assert_eq!(route("/post", None), Action::EchoBody);
    assert_eq!(route("/getJuejinData", None), Action::FetchFeed);
}

#[test]
fn route_sum() {
    assert_eq!(route("/sum", None), Action::SendSum(0));
    assert_eq!(route("/sum", Some("a=1&b=2&c=-4")), Action::SendSum(-1));
    assert_eq!(route("/sum", Some("a=1&a=5")), Action::SendSum(5));
    assert_eq!(route("/sum", Some("a=x")), Action::Abort);
    assert_eq!(route("/sum", Some("a=2147483647&b=1")), Action::Abort);
    assert_eq!(route("/sum", Some("a")), Action::Abort);
}

#[test]
fn route_filelist() {
    assert_eq!(route("/filelist", None), Action::Browse(String::new()));
    assert_eq!(route("/filelist", Some("path=%2Ftmp%20dir")), Action::Browse("/tmp dir".to_string()));
    assert_eq!(route("/filelist", Some("path=.")), Action::Browse(".".to_string()));
    assert_eq!(route("/filelist", Some("dir=.")), Action::Abort);
    assert_eq!(route("/filelist", Some("path=%FF")), Action::Abort);
    assert_eq!(route("/filelist", Some("path")), Action::Abort);
}

#[test]
fn route_static_and_missing() {
    assert_eq!(route("/app.JS", None), Action::SendFile("./app.js".to_string()));
    assert_eq!(route("/pages/a.html", None), Action::SendFile("./pages/a.html".to_string()));
    assert_eq!(route("/nothing", None), Action::SendFile("./404.html".to_string()));
    assert_eq!(route("/", None), Action::SendFile("./404.html".to_string()));
}

#[test]
fn text_helpers() {
    assert_eq!(route("/ÇA.HTML", None), Action::SendFile("./ça.html".to_string()));
    assert_eq!(chars_of("héllo"), vec!['h', 'é', 'l', 'l', 'o']);
    assert!(ends_with("a.html", ".html"));
    assert!(!ends_with("html", ".html"));
    assert!(ends_with("x", ""));
}

#[test]
fn replace_cases() {
    assert_eq!(replace_str("home sweet home", "home", "7"), "7 sweet 7");
    assert_eq!(replace_str("aaa", "aa", "b"), "ba");
    assert_eq!(replace_str("none", "home", "1"), "none");
    assert_eq!(render_sum_page("<p>home</p>", -12), "<p>-12</p>");
    assert_eq!(render_sum_page("homehome", 3), "33");
    assert_eq!(render_sum_page("Home", 3), "Home");
}

#[test]
fn browse_path_is_url_decoded() {
    assert_eq!(route("/filelist", Some("path=a%20b")), Action::Browse("a b".to_string()));
    assert_eq!(route("/filelist", Some("path=plain+text")), Action::Browse("plain+text".to_string()));
    assert_eq!(route("/filelist", Some("path=%E4%B8%AD")), Action::Browse("中".to_string()));
    assert_eq!(route("/filelist", Some("path=%E4")), Action::Abort);
}

#[test]
fn file_message_decodes_gbk() {
    assert_eq!(file_message_json(&[0xD6, 0xD0, b'a']), "{\"message\":\"中a\"}");
    assert_eq!(file_message_json(b"line\n"), "{\"message\":\"line\\n\"}");
}

#[test]
fn post_reply_echoes_json() {
    assert_eq!(post_reply(b"{\"k\":1}".to_vec()), Some("{\"k\":1}".to_string()));
    assert_eq!(post_reply(b"not json".to_vec()), None);
    assert_eq!(post_reply(vec![0xFF, 0x7B, 0x7D]), None);
}

#[test]
fn token_check_outcomes() {
    let mw = Authentication.new_transform(5u8);
    assert_eq!(*mw.service(), 5);
    match mw.check_token(None) {
        TokenCheck::Reject(r) => {
            assert_eq!((r.code, r.msg.as_str()), (401, "token is None"));
        }
        _ => panic!("expected a rejection"),
    }
    match mw.check_token(Some(b"abc 1\t")) {
        TokenCheck::Accept(t) => assert_eq!(t, "abc 1\t"),
        _ => panic!("expected acceptance"),
    }
    assert!(matches!(mw.check_token(Some(&[b'a', 0x80])), TokenCheck::Abort));
    assert!(matches!(mw.check_token(Some(&[0x7F])), TokenCheck::Abort));
    assert!(matches!(mw.check_token(Some(b"")), TokenCheck::Accept(_)));
}

#[test]
fn write_replies() {
    let r = create_reply(Ok(()));
    assert_eq!((r.code, r.msg.as_str(), r.data.as_str()), (200, "success", "create user success"));
    let r = delete_reply(Ok(()));
    assert_eq!(r.data, "delete user success");
    let r = update_reply(Ok(()));
    assert_eq!(r.data, "update user success");
    let r = delete_reply(Err("db down".to_string()));
    assert_eq!((r.code, r.msg.as_str(), r.data.as_str()), (500, "db down", ""));
}

#[test]
fn update_plans() {
    let req = UpdateUserRequest { id: 3, username: Some("bob".to_string()), email: None };
    let u = apply_update(user(3), &req);
    assert_eq!((u.id, u.username.as_str(), u.password.as_str(), u.email.as_str()), (3, "bob", "pw", "ann@example.com"));
    match update_target(Ok(Some(user(3))), &req) {
        Ok(u) => assert_eq!(u.username, "bob"),
        Err(_) => panic!("expected a user"),
    }
    match update_target(Ok(None), &req) {
        Err(r) => assert_eq!((r.code, r.msg.as_str(), r.data.as_str()), (500, "用户不存在", "")),
        Ok(_) => panic!("expected a reply"),
    }
    match update_target(Err("lost".to_string()), &req) {
        Err(r) => assert_eq!((r.code, r.msg.as_str()), (500, "lost")),
        Ok(_) => panic!("expected a reply"),
    }
}

#[test]
fn get_replies() {
    let r = get_reply(Ok(vec![user(1)]));
    assert_eq!((r.code, r.msg.as_str(), r.data.len()), (200, "success", 1));
    let r = get_reply(Err("bad".to_string()));
    assert_eq!((r.code, r.msg.as_str(), r.data.len()), (500, "bad", 0));
}

#[test]
fn file_list_holds_fields() {
    let f = FileList { file_type: "dir".to_string(), file_path: "/tmp".to_string() };
    assert_eq!((f.file_type.as_str(), f.file_path.as_str()), ("dir", "/tmp"));
}

#[test]
fn replace_with_empty_pattern_matches_std() {
    for (s, to) in [("abc", "x"), ("", "x"), ("héllo", "-"), ("ab", "")] {
        assert_eq!(replace_str(s, "", to), s.replace("", to));
    }
    assert_eq!(replace_str("abc", "", "x"), "xaxbxcx");
}

#[test]
fn replace_matches_std() {
    for (s, from, to) in [("aaaa", "aa", "b"), ("home home", "home", "9"), ("ababab", "aba", "X"), ("", "a", "b")] {
        assert_eq!(replace_str(s, from, to), s.replace(from, to));
    }
}

#[test]
fn browse_path_keeps_stray_percent() {
    assert_eq!(route("/filelist", Some("path=%4z")), Action::Browse("%4z".to_string()));
    assert_eq!(route("/filelist", Some("path=%%41")), Action::Browse("%A".to_string()));
    assert_eq!(route("/filelist", Some("path=a%")), Action::Browse("a%".to_string()));
    assert_eq!(route("/filelist", Some("path=%e4%b8%ad")), Action::Browse("中".to_string()));
}

#[test]
fn reduce_sums_with_plain_addition() {
    assert_eq!(reduce(vec![1i32, 2, 3], |cur: i32, item: i32| cur + item, 0), 6);
    assert_eq!(reduce(Vec::<i32>::new(), |cur: i32, item: i32| cur + item, 0), 0);
}

#[test]
fn reduce_over_joined_sequences() {
    let step = |cur: i64, item: i64| cur * 3 + item;
    let whole = reduce(vec![1i64, 2, 3, 4, 5], step, 7);
    let first = reduce(vec![1i64, 2], step, 7);
    assert_eq!(whole, reduce(vec![3i64, 4, 5], step, first));
}
