use haiku::flattenable::Flattenable;
use haiku::kernel::{Port, Team};
use haiku::looper::{Looper, Step};
use haiku::message::Message;
use haiku::messenger::{ApplicationDelegate, LooperDelegate, Messenger, Resolution, SignatureQuery};
use haiku::roster::{AppInfo, FlatAppInfo, LaunchType, NotificationType, Roster, B_REG_SUCCESS};
use haiku::types::{haiku_constant, B_MESSAGE_TYPE, B_PREFERRED_TOKEN, QUIT};

fn message_for(what: u32, target: i32) -> Message {
    let mut m = Message::new(what);
    m.header.target = target;
    m
}

#[test]
fn looper_stops_at_quit() {
    let (mut looper, state) = Looper::new("test looper", Port::from_raw(50, true));
    let other = looper.add_handler().unwrap();
    assert_ne!(other, state);
    looper.push_message(message_for(1, B_PREFERRED_TOKEN));
    looper.push_message(message_for(2, other));
    looper.push_message(message_for(QUIT, B_PREFERRED_TOKEN));
    looper.push_message(message_for(3, other));
    match looper.dispatch_next() {
        Step::Dispatch(token, m) => {
            assert_eq!(token, state);
            assert_eq!(m.what(), 1);
        }
        _ => panic!("expected the first message"),
    }
    match looper.dispatch_next() {
        Step::Dispatch(token, m) => {
            assert_eq!(token, other);
            assert_eq!(m.what(), 2);
        }
        _ => panic!("expected the second message"),
    }
    assert!(matches!(looper.dispatch_next(), Step::Quit));
    assert!(looper.is_terminating());
    assert!(matches!(looper.dispatch_next(), Step::Stopped));
    assert!(matches!(looper.dispatch_next(), Step::Stopped));
    assert_eq!(looper.queue_len(), 1);
}

#[test]
fn looper_drops_unaddressed_messages() {
    let (mut looper, _state) = Looper::new("drops", Port::from_raw(51, true));
    assert!(matches!(looper.dispatch_next(), Step::Empty));
    looper.push_message(message_for(1, 999));
    assert!(matches!(looper.dispatch_next(), Step::Dropped));
    looper.push_message(message_for(haiku::types::B_QUIT_REQUESTED, B_PREFERRED_TOKEN));
    assert!(matches!(looper.dispatch_next(), Step::QuitRequested));
    assert!(!looper.is_terminating());
}

#[test]
fn looper_reads_frames() {
    let (mut looper, state) = Looper::new("frames", Port::from_raw(52, true));
    let preferred = looper.add_preferred_handler().unwrap();
    assert_ne!(preferred, state);
    let m = message_for(haiku_constant('a', 'b', 'c', 'd'), B_PREFERRED_TOKEN);
    assert!(looper.receive_frame(B_MESSAGE_TYPE as i32, &m.flatten()).is_ok());
    assert!(looper.receive_frame(7, &m.flatten()).is_err());
    assert!(looper.receive_frame(B_MESSAGE_TYPE as i32, &[1, 2, 3]).is_err());
    assert_eq!(looper.queue_len(), 1);
    match looper.dispatch_next() {
        Step::Dispatch(token, _) => assert_eq!(token, preferred),
        _ => panic!("expected a dispatch"),
    }
    assert_eq!(looper.name(), "frames");
    assert_eq!(looper.get_messenger().port.port, 52);
}

#[test]
fn messenger_stamps_messages() {
    let target = Messenger::from_port_id(10).unwrap();
    let mut sender = Messenger::from_port(&Port::from_raw(20, true)).unwrap();
    sender.set_token(5);
    let frame = target.send(Message::new(7), &sender, 3);
    assert_eq!(frame.port, 10);
    assert_eq!(frame.type_code, B_MESSAGE_TYPE as i32);
    let sent = Message::unflatten(&frame.data).unwrap();
    assert_eq!(sent.header.target, B_PREFERRED_TOKEN);
    assert_eq!(sent.header.reply_port, 20);
    assert_eq!(sent.header.reply_target, 5);
    assert_eq!(sent.header.reply_team, 3);
    assert!(sent.was_delivered());
    assert!(sent.is_source_remote(4));
    assert!(!sent.is_source_remote(3));
    assert_eq!(sent.get_return_address().unwrap().port.port, 20);

    let frame = target.send_and_wait_for_reply(Message::new(8), 30, 4);
    let sent = Message::unflatten(&frame.data).unwrap();
    assert_eq!(sent.header.reply_port, 30);
    assert_eq!(sent.header.reply_target, haiku::types::B_NULL_TOKEN);
    assert_eq!(sent.header.flags & haiku::types::MESSAGE_FLAG_REPLY_REQUIRED, haiku::types::MESSAGE_FLAG_REPLY_REQUIRED);

    let frame = target.send_and_ask_reply(Message::new(9), &sender, 6);
    let sent = Message::unflatten(&frame.data).unwrap();
    assert_eq!(sent.header.reply_port, 20);
    assert_eq!(sent.header.reply_team, 6);
    assert!(Messenger::from_port_id(-1).is_none());
}

#[test]
fn delegates_send_quit_to_themselves() {
    let delegate = LooperDelegate { messenger: Messenger::from_port_id(40).unwrap() };
    let frame = delegate.quit(2);
    assert_eq!(frame.port, 40);
    let sent = Message::unflatten(&frame.data).unwrap();
    assert_eq!(sent.what(), QUIT);
    assert_eq!(sent.header.reply_port, 40);
    let app = ApplicationDelegate { messenger: Messenger::from_port_id(41).unwrap() };
    let sent = Message::unflatten(&app.quit(2).data).unwrap();
    assert_eq!(sent.what(), QUIT);
}

#[test]
fn test_roster_get_app_list() {
    let roster = Roster::new(Messenger::from_port_id(1).unwrap());
    let mut reply = Message::new(haiku::roster::B_REG_SUCCESS);
    reply.add_data("teams", &12i32).unwrap();
    reply.add_data("teams", &34i32).unwrap();
    let app_list = roster.get_app_list(&reply).unwrap();
    assert!(app_list.len() != 0);
    assert_eq!(app_list[1].get_team_id(), 34);
    let failure = Message::new(1);
    assert!(roster.get_app_list(&failure).is_none());
    assert_eq!(Roster::app_list_request().what(), haiku::roster::B_REG_GET_APP_LIST);
}

#[test]
fn app_info_flags() {
    let info = AppInfo { thread: 1, team: 2, port: 3, flags: 0x1 | 0x4, path: String::new(), signature: String::new() };
    assert_eq!(info.launch_type(), LaunchType::MultipleLaunch);
    assert!(info.is_background());
    assert!(!info.is_argv_only());
    let info = AppInfo { flags: 0x2 | 0x8, ..info };
    assert_eq!(info.launch_type(), LaunchType::ExclusiveLaunch);
    assert!(info.is_argv_only());
    let info = AppInfo { flags: 0, ..info };
    assert_eq!(info.launch_type(), LaunchType::SingleLaunch);
    assert_eq!(NotificationType::Progress.code(), 3);
    assert!(Team::from(-1).is_none());
    assert_eq!(Team::from(9).unwrap().get_team_id(), 9);
}

#[test]
fn signature_resolution_steps() {
    let team = Team::from(8).unwrap();
    assert!(matches!(Messenger::from_signature("application/x-test", Some(&team)), Resolution::Ask(SignatureQuery::RunningApp(8))));
    assert!(matches!(Messenger::from_signature("application/x-test", None), Resolution::Ask(SignatureQuery::LaunchData)));

    let info = AppInfo { thread: 1, team: 8, port: 77, flags: 0, path: String::new(), signature: String::from("application/x-test") };
    let m = Messenger::from_running_app("application/x-test", Some(&info)).unwrap();
    assert_eq!(m.port.port, 77);
    assert_eq!(m.token, B_PREFERRED_TOKEN);
    let e = Messenger::from_running_app("application/x-other", Some(&info)).err().unwrap();
    assert_eq!(e.kind(), haiku::errors::ErrorKind::InvalidInput);
    assert_eq!(Messenger::from_running_app("application/x-test", None).err().unwrap().kind(), haiku::errors::ErrorKind::NotFound);
    let argv_only = AppInfo { flags: 0x8, ..info };
    assert_eq!(Messenger::from_app_info(Some(&argv_only)).err().unwrap().kind(), haiku::errors::ErrorKind::NotAllowed);

    let mut launch = Message::new(0);
    launch.add_data("port", &55i32).unwrap();
    match Messenger::from_launch_data(Some(&launch)) {
        Resolution::Done(Ok(m)) => assert_eq!(m.port.port, 55),
        _ => panic!("expected a messenger"),
    }
    let failed = Message::new(1);
    assert!(matches!(Messenger::from_launch_data(Some(&failed)), Resolution::Ask(SignatureQuery::RegisteredApp)));
    assert!(matches!(Messenger::from_launch_data(None), Resolution::Ask(SignatureQuery::RegisteredApp)));
}

#[test]
fn registrar_app_record() {
    let mut record = vec![0u8; 525];
    record[0] = 10; // thread
    record[4] = 11; // team
    record[8] = 12; // port
    record[12] = 0x4; // flags
    record[16] = 3; // device
    record[20] = 9; // directory
    record[28..45].copy_from_slice(b"application/x-vnd");
    record[268..271].copy_from_slice(b"app");
    let flat = FlatAppInfo::unflatten(&record).unwrap();
    assert!(FlatAppInfo::unflatten(&record[0..524]).is_err());
    let mut reply = Message::new(B_REG_SUCCESS);
    reply.add_data("app_info", &flat).unwrap();
    let roster = Roster::new(Messenger::from_port_id(1).unwrap());
    let info = roster.get_app_info(&reply).unwrap();
    assert_eq!(info.thread, 10);
    assert_eq!(info.team, 11);
    assert_eq!(info.port, 12);
    assert!(info.is_background());
    assert_eq!(info.signature, "application/x-vnd");
    let (device, directory, name) = Roster::app_record(&reply).unwrap().entry();
    assert_eq!((device, directory), (3, 9));
    assert_eq!(name, b"app".to_vec());
    assert!(roster.get_app_info(&Message::new(1)).is_none());
}

#[test]
fn handler_tokens_are_recycled_safely() {
    let (mut looper, state) = Looper::new("tokens", Port::from_raw(60, true));
    let a = looper.add_handler().unwrap();
    assert!(looper.remove_handler(a));
    assert!(!looper.remove_handler(a));
    let b = looper.add_handler().unwrap();
    assert_ne!(a, b);
    looper.push_message(message_for(1, a));
    assert!(matches!(looper.dispatch_next(), Step::Dropped));
    looper.push_message(message_for(2, b));
    assert!(matches!(looper.dispatch_next(), Step::Dispatch(t, _) if t == b));
    assert!(looper.remove_handler(state));
    looper.push_message(message_for(3, B_PREFERRED_TOKEN));
    assert!(matches!(looper.dispatch_next(), Step::Dropped));
}

#[test]
fn arguments_messages() {
    use_argv();
}

fn use_argv() {
    let mut m = Message::new(haiku::types::B_ARGV_RECEIVED);
    m.add_data("argv", &String::from("app")).unwrap();
    m.add_data("argv", &String::from("--flag")).unwrap();
    assert_eq!(haiku::application::parse_argv(&m), Some(vec![String::from("app"), String::from("--flag")]));
    let mut internal = Message::new(haiku::types::B_ARGV_RECEIVED);
    internal.add_data("_internal", &true).unwrap();
    assert_eq!(haiku::application::parse_argv(&internal), None);
    let empty = Message::new(haiku::types::B_ARGV_RECEIVED);
    assert_eq!(haiku::application::parse_argv(&empty), Some(vec![]));
}

#[test]
fn registrar_removal_replies() {
    let roster = Roster::new(Messenger::from_port_id(1).unwrap());
    assert!(roster.remove_application(&Message::new(B_REG_SUCCESS)).is_ok());
    let mut failure = Message::new(1);
    failure.add_data("error", &haiku::errors::B_BAD_VALUE).unwrap();
    let e = roster.remove_application(&failure).unwrap_err();
    assert_eq!(e.raw_os_error(), Some(haiku::errors::B_BAD_VALUE));
    let e = roster.remove_application(&Message::new(1)).unwrap_err();
    assert_eq!(e.raw_os_error(), Some(haiku::errors::B_ERROR));
    assert_eq!(Roster::remove_application_request(4).what(), haiku::roster::B_REG_REMOVE_APP);
}

#[test]
fn loop_decisions() {
    let (mut looper, state) = Looper::new("decisions", Port::from_raw(70, true));
    assert!(looper.needs_read());
    looper.push_message(message_for(1, state));
    assert!(!looper.needs_read());
    let step = looper.dispatch_next();
    assert!(looper.continue_dispatch(&step, 0));
    assert!(!looper.continue_dispatch(&step, 2));
    assert!(looper.continue_dispatch(&Step::Dropped, 2));
    assert!(!looper.continue_dispatch(&Step::Empty, 0));
    assert!(looper.port_failed(haiku::errors::B_TIMED_OUT));
    assert!(!looper.is_terminating());
    assert!(!looper.port_failed(haiku::errors::B_BAD_PORT_ID));
    assert!(looper.is_terminating());
}
