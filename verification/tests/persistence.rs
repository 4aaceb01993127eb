//! Behavior of the persistence layer: the canonical JSON codec, the
//! encrypted round trip, storage planning, response decoding, and the
//! result bus.

use meteora::bus::{apply_bin_id, channel_send, poll_channels, Channels, Message};
use meteora::crypto::{decrypt_notes, encrypt_userdata, StoreError};
use meteora::json::{parse_userdata, ser_userdata};
use meteora::note::{Deadline, Note};
use meteora::storage::{
    load_response, make_envelope, open_envelope, publish_response, LoadPlan, SavePlan,
    StorageMode,
};
use meteora::userdata::{LogDay, UserData};

fn sample_note(id: u128, text: &str, priority: u32) -> Note {
    let mut n = Note::default();
    n.id = id;
    n.text = String::from(text);
    n.priority = priority;
    n
}

fn sample_userdata() -> UserData {
    let mut u = UserData::new();
    let mut a = sample_note(1, "first note ✨ with emoji", 200);
    a.add_tag(String::from("alpha"));
    a.deadline = Deadline::Fixed(738010);
    let mut b = sample_note(2, "second\nnote with \"quotes\" and \\slashes\\", 500);
    b.add_tag(String::from("alpha"));
    b.add_tag(String::from("beta"));
    b.toggle_dependency(1);
    let c = sample_note(3, "", 900);
    u.insert_note(a);
    u.insert_note(b);
    u.insert_note(c);
    u.add_tag(String::from("alpha"));
    u.add_tag(String::from("beta"));
    u.logbook.push(LogDay { day: 738000, entries: vec![sample_note(9, "log entry", 0)] });
    u
}

fn assert_same_userdata(x: &UserData, y: &UserData) {
    assert_eq!(x.notes.len(), y.notes.len());
    for i in 0..x.notes.len() {
        let (a, b) = (&x.notes[i], &y.notes[i]);
        assert_eq!(a.text, b.text);
        assert_eq!(a.tags, b.tags);
        assert_eq!(a.id, b.id);
        assert_eq!(a.depends, b.depends);
        assert_eq!(a.color, b.color);
        assert_eq!(a.progress, b.progress);
        assert_eq!(a.priority, b.priority);
        assert_eq!(a.deadline, b.deadline);
        assert_eq!(a.complete, b.complete);
        assert_eq!(a.created, b.created);
    }
    assert_eq!(x.tags, y.tags);
    assert_eq!(x.scratchpad.sections, y.scratchpad.sections);
    assert_eq!(x.logbook.len(), y.logbook.len());
    for i in 0..x.logbook.len() {
        assert_eq!(x.logbook[i].day, y.logbook[i].day);
        assert_eq!(x.logbook[i].entries.len(), y.logbook[i].entries.len());
    }
}

#[test]
fn json_round_trip_preserves_everything() {
    let u = sample_userdata();
    let text = ser_userdata(&u);
    let back = parse_userdata(text.as_str()).expect("canonical text parses");
    assert_same_userdata(&u, &back);
}

#[test]
fn json_round_trip_of_empty_aggregate() {
    let u = UserData::new();
    let text = ser_userdata(&u);
    let back = parse_userdata(text.as_str()).expect("canonical text parses");
    assert_same_userdata(&u, &back);
}

#[test]
fn parse_rejects_garbage() {
    assert!(parse_userdata("not json at all").is_none());
    assert!(parse_userdata("").is_none());
    assert!(parse_userdata("{\"notes\":[]}").is_none());
}

#[test]
fn encrypted_round_trip_restores_userdata() {
    let u = sample_userdata();
    let credentials = (String::from("user"), String::from("passphrase"));
    let stored = encrypt_userdata(&u, &credentials);
    let back = decrypt_notes(stored.as_str(), &credentials).expect("same passphrase decrypts");
    assert_same_userdata(&u, &back);
}

#[test]
fn empty_passphrase_stores_plain_json() {
    let u = sample_userdata();
    let credentials = (String::from("user"), String::new());
    let stored = encrypt_userdata(&u, &credentials);
    assert_eq!(stored, ser_userdata(&u));
    let back = decrypt_notes(stored.as_str(), &credentials).expect("plain json parses");
    assert_same_userdata(&u, &back);
}

#[test]
fn wrong_passphrase_is_a_decryption_error() {
    let u = sample_userdata();
    let right = (String::from("user"), String::from("correct horse"));
    let wrong = (String::from("user"), String::from("battery staple"));
    let stored = encrypt_userdata(&u, &right);
    let r = decrypt_notes(stored.as_str(), &wrong);
    assert!(matches!(r, Err(StoreError::DecryptionError)));
}

#[test]
fn corrupt_plain_text_is_a_deserialization_error() {
    let credentials = (String::from("user"), String::new());
    let r = decrypt_notes("{\"broken\":", &credentials);
    assert!(matches!(r, Err(StoreError::DeserializationError)));
}

#[test]
fn envelope_round_trip() {
    let env = make_envelope("c2VjcmV0");
    assert_eq!(env, "{\"encrypted\":\"c2VjcmV0\"}");
    assert_eq!(open_envelope(env.as_str()), Some(String::from("c2VjcmV0")));
    assert_eq!(open_envelope("{\"other\":1}"), None);
}

#[test]
fn local_mode_round_trips_through_planned_content() {
    let u = sample_userdata();
    let credentials = (String::from("user"), String::from("key"));
    let mode = StorageMode::Local { path: String::from("backup.json") };
    match mode.plan_save(&u, &credentials) {
        SavePlan::WriteLocal { path, content } => {
            assert_eq!(path, "backup.json");
            // what the plan writes is what a later load reads back
            let back = meteora::storage::read_local(content.as_str(), &credentials)
                .expect("own content decodes");
            assert_same_userdata(&u, &back);
        }
        _ => panic!("local mode must write a local file"),
    }
    match mode.plan_load(&credentials) {
        Ok(LoadPlan::ReadLocal { path }) => assert_eq!(path, "backup.json"),
        _ => panic!("local mode must read a local file"),
    }
}

#[test]
fn remote_mode_plans_publish_then_update() {
    let u = UserData::new();
    let credentials = (String::from("user"), String::from("key"));
    let fresh = StorageMode::JsonBin { masterkey: String::from("mk"), bin_id: None };
    match fresh.plan_save(&u, &credentials) {
        SavePlan::Publish { request } => {
            assert_eq!(request.method, "POST");
            assert_eq!(request.url, "https://api.jsonbin.io/v3/b");
            assert!(request.body.starts_with("{\"encrypted\":"));
            assert_eq!(request.headers[2].0, "X-Master-Key");
            assert_eq!(request.headers[2].1, "mk");
        }
        _ => panic!("an unpublished bin must publish"),
    }
    assert!(matches!(fresh.plan_load(&credentials), Err(StoreError::NotFound)));

    let known = StorageMode::JsonBin {
        masterkey: String::from("mk"),
        bin_id: Some(String::from("abc123")),
    };
    match known.plan_save(&u, &credentials) {
        SavePlan::Update { request } => {
            assert_eq!(request.method, "PUT");
            assert_eq!(request.url, "https://api.jsonbin.io/v3/b/abc123");
        }
        _ => panic!("a published bin must update in place"),
    }
    match known.plan_load(&credentials) {
        Ok(LoadPlan::Fetch { request }) => {
            assert_eq!(request.method, "GET");
            assert_eq!(request.url, "https://api.jsonbin.io/v3/b/abc123?meta=false");
        }
        _ => panic!("a published bin must fetch"),
    }
}

#[test]
fn load_response_decodes_fetched_envelope() {
    let u = sample_userdata();
    let credentials = (String::from("user"), String::from("key"));
    let body = make_envelope(encrypt_userdata(&u, &credentials).as_str());
    let back = load_response(200, body.as_str(), &credentials).expect("good response decodes");
    assert_same_userdata(&u, &back);
    assert!(matches!(
        load_response(404, body.as_str(), &credentials),
        Err(StoreError::HttpError)
    ));
    assert!(matches!(
        load_response(200, "surprise", &credentials),
        Err(StoreError::MalformedResponse)
    ));
}

#[test]
fn publish_response_extracts_the_new_bin_id() {
    let body = "{\"record\":{\"encrypted\":\"xx\"},\"metadata\":{\"id\":\"65ab12\",\"private\":true}}";
    assert_eq!(publish_response(200, body), Ok(String::from("65ab12")));
    assert!(matches!(publish_response(500, body), Err(StoreError::HttpError)));
    assert!(matches!(publish_response(200, "{}"), Err(StoreError::MalformedResponse)));
}

#[test]
fn mode_names_for_display() {
    let local = StorageMode::default();
    assert_eq!(local.mode_name(), "Local");
    let remote = StorageMode::JsonBin { masterkey: String::new(), bin_id: None };
    assert_eq!(remote.mode_name(), "JsonBin");
}

#[test]
fn message_constructors_carry_text() {
    assert!(matches!(Message::info("hi"), Message::Info(t) if t == "hi"));
    assert!(matches!(Message::warn("careful"), Message::Warn(t) if t == "careful"));
    assert!(matches!(Message::err("broken"), Message::Error(t) if t == "broken"));
}

#[test]
fn bus_delivers_id_userdata_and_message() {
    let channels = Channels::new();
    let mut userdata = UserData::new();
    let mut mode = StorageMode::JsonBin { masterkey: String::from("mk"), bin_id: None };
    let mut credentials = (String::new(), String::from("pass"));

    assert!(channel_send(&channels.id_channel.0, String::from("bin42")));
    let mut filled = UserData::new();
    filled.insert_note(sample_note(1, "arrived", 0));
    assert!(channel_send(&channels.userdata_channel.0, filled));
    assert!(channel_send(&channels.msg_channel.0, Message::info("Saved notes!")));

    let msg = poll_channels(&channels, &mut userdata, &mut mode, &mut credentials);
    assert_eq!(credentials.0, "bin42");
    assert_eq!(credentials.1, "pass");
    match &mode {
        StorageMode::JsonBin { bin_id, .. } => assert_eq!(bin_id.as_deref(), Some("bin42")),
        _ => panic!("the mode stays remote"),
    }
    assert_eq!(userdata.notes.len(), 1);
    assert!(matches!(msg, Some(Message::Info(t)) if t == "Saved notes!"));
    // an empty poll returns nothing and changes nothing
    let again = poll_channels(&channels, &mut userdata, &mut mode, &mut credentials);
    assert!(again.is_none());
    assert_eq!(userdata.notes.len(), 1);
}

#[test]
fn apply_bin_id_publishes_the_mode() {
    let mut mode = StorageMode::JsonBin { masterkey: String::from("mk"), bin_id: None };
    let mut credentials = (String::new(), String::from("pass"));
    apply_bin_id(&mut mode, &mut credentials, String::from("fresh"));
    assert_eq!(credentials.0, "fresh");
    match &mode {
        StorageMode::JsonBin { bin_id, .. } => assert_eq!(bin_id.as_deref(), Some("fresh")),
        _ => panic!("the mode stays remote"),
    }
}
