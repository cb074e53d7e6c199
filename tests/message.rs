use haiku::errors::ErrorKind;
use haiku::flattenable::Flattenable;
use haiku::message::Message;
use haiku::types::haiku_constant;

#[test]
fn test_message_flattening() {
    let constant: u32 = haiku_constant('a', 'b', 'c', 'd');
    let basic_message = Message::new(constant);
    let flattened_message = basic_message.flatten();
    let comparison: Vec<u8> = vec!(72, 77, 70, 49, 100, 99, 98, 97, 1, 0, 0, 0, 255, 255, 255, 255, 255, 255, 255, 255, 255, 255, 255, 255, 255, 255, 255, 255, 255, 255, 255, 255, 255, 255, 255, 255, 0, 0, 0, 0, 0, 0, 0, 0, 5, 0, 0, 0, 255, 255, 255, 255, 255, 255, 255, 255, 255, 255, 255, 255, 255, 255, 255, 255, 255, 255, 255, 255);
    assert_eq!(flattened_message, comparison);
    assert!(!basic_message.is_reply());
    assert!(!basic_message.is_source_remote(0));

    // Second message
    let constant: u32 = haiku_constant('e', 'f', 'g', 'h');
    let mut message_with_data = Message::new(constant);
    assert!(message_with_data.is_empty());
    message_with_data.add_data("UInt8", &('a' as u8)).unwrap();
    message_with_data.add_data("UInt16", &(1234 as u16)).unwrap();
    assert!(!message_with_data.is_empty());
    let flattened_message = message_with_data.flatten();
    let comparison: Vec<u8> = vec!(72, 77, 70, 49, 104, 103, 102, 101, 1, 0, 0, 0, 255, 255, 255, 255, 255, 255, 255, 255, 255, 255, 255, 255, 255, 255, 255, 255, 255, 255, 255, 255, 255, 255, 255, 255, 16, 0, 0, 0, 2, 0, 0, 0, 5, 0, 0, 0, 1, 0, 0, 0, 255, 255, 255, 255, 0, 0, 0, 0, 255, 255, 255, 255, 255, 255, 255, 255, 3, 0, 6, 0, 84, 89, 66, 85, 1, 0, 0, 0, 1, 0, 0, 0, 0, 0, 0, 0, 255, 255, 255, 255, 3, 0, 7, 0, 84, 72, 83, 85, 1, 0, 0, 0, 2, 0, 0, 0, 7, 0, 0, 0, 255, 255, 255, 255, 85, 73, 110, 116, 56, 0, 97, 85, 73, 110, 116, 49, 54, 0, 210, 4);
    assert_eq!(flattened_message, comparison);

    // Third message
    let constant: u32 = haiku_constant('l', 'n', 'd', 'a');
    let mut app_data_message = Message::new(constant);
    app_data_message.add_data("name", &String::from("application/x-vnd.haiku-registrar")).unwrap();
    app_data_message.add_data("user", &(0)).unwrap();
    let comparison: Vec<u8> = vec!(72, 77, 70, 49, 97, 100, 110, 108, 1, 0, 0, 0, 255, 255, 255, 255, 255, 255, 255, 255, 255, 255, 255, 255, 255, 255, 255, 255, 255, 255, 255, 255, 255, 255, 255, 255, 52, 0, 0, 0, 2, 0, 0, 0, 5, 0, 0, 0, 255, 255, 255, 255, 255, 255, 255, 255, 0, 0, 0, 0, 255, 255, 255, 255, 255, 255, 255, 255, 1, 0, 5, 0, 82, 84, 83, 67, 1, 0, 0, 0, 38, 0, 0, 0, 0, 0, 0, 0, 1, 0, 0, 0, 3, 0, 5, 0, 71, 78, 79, 76, 1, 0, 0, 0, 4, 0, 0, 0, 43, 0, 0, 0, 255, 255, 255, 255, 110, 97, 109, 101, 0, 34, 0, 0, 0, 97, 112, 112, 108, 105, 99, 97, 116, 105, 111, 110, 47, 120, 45, 118, 110, 100, 46, 104, 97, 105, 107, 117, 45, 114, 101, 103, 105, 115, 116, 114, 97, 114, 0, 117, 115, 101, 114, 0, 0, 0, 0, 0);
    let flattened_message = app_data_message.flatten();
    assert_eq!(flattened_message, comparison);
}

#[test]
fn test_system_message() {
    let system_constant: u32 = haiku_constant('_', 'A', 'B', 'C');
    let system_message = Message::new(system_constant);
    assert!(system_message.is_system());

    let other_constant: u32 = haiku_constant('x', 'A', 'B', 'C');
    let other_message = Message::new(other_constant);
    assert!(!other_message.is_system());
}

#[test]
fn test_message_add_and_remove() {
    let constant: u32 = haiku_constant('a', 'b', 'c', 'd');
    let mut message = Message::new(constant);
    message.add_data("parameter1", &(15 as i8)).unwrap();
    message.add_data("parameter2", &String::from("value1")).unwrap();
    message.add_data("parameter1", &(51 as i8)).unwrap();
    message.add_data("parameter2", &String::from("value2")).unwrap();

    let flattened_message = message.flatten();
    let comparison: Vec<u8> = vec!(72, 77, 70, 49, 100, 99, 98, 97, 1, 0, 0, 0, 255, 255, 255, 255, 255, 255, 255, 255, 255, 255, 255, 255, 255, 255, 255, 255, 255, 255, 255, 255, 255, 255, 255, 255, 46, 0, 0, 0, 2, 0, 0, 0, 5, 0, 0, 0, 0, 0, 0, 0, 255, 255, 255, 255, 255, 255, 255, 255, 255, 255, 255, 255, 255, 255, 255, 255, 3, 0, 11, 0, 69, 84, 89, 66, 2, 0, 0, 0, 2, 0, 0, 0, 0, 0, 0, 0, 1, 0, 0, 0, 1, 0, 11, 0, 82, 84, 83, 67, 2, 0, 0, 0, 22, 0, 0, 0, 13, 0, 0, 0, 255, 255, 255, 255, 112, 97, 114, 97, 109, 101, 116, 101, 114, 49, 0, 15, 51, 112, 97, 114, 97, 109, 101, 116, 101, 114, 50, 0, 7, 0, 0, 0, 118, 97, 108, 117, 101, 49, 0, 7, 0, 0, 0, 118, 97, 108, 117, 101, 50, 0);
    assert_eq!(flattened_message, comparison);

    message.add_data("parameter3", &(40 as i8)).unwrap();
    assert!(message.remove_field("parameter1").is_ok());
    assert!(message.remove_field("parameter3").is_ok());
    let flattened_message = message.flatten();
    let comparison: Vec<u8> = vec!(72, 77, 70, 49, 100, 99, 98, 97, 1, 0, 0, 0, 255, 255, 255, 255, 255, 255, 255, 255, 255, 255, 255, 255, 255, 255, 255, 255, 255, 255, 255, 255, 255, 255, 255, 255, 33, 0, 0, 0, 1, 0, 0, 0, 5, 0, 0, 0, 0, 0, 0, 0, 255, 255, 255, 255, 255, 255, 255, 255, 255, 255, 255, 255, 255, 255, 255, 255, 1, 0, 11, 0, 82, 84, 83, 67, 2, 0, 0, 0, 22, 0, 0, 0, 0, 0, 0, 0, 255, 255, 255, 255, 112, 97, 114, 97, 109, 101, 116, 101, 114, 50, 0, 7, 0, 0, 0, 118, 97, 108, 117, 101, 49, 0, 7, 0, 0, 0, 118, 97, 108, 117, 101, 50, 0);
    assert_eq!(flattened_message, comparison);

    message.add_data("parameter2", &String::from("value n+1 much longer")).unwrap();
    assert!(message.remove_data("parameter2", 1).is_ok());
    let flattened_message = message.flatten();
    let comparison: Vec<u8> =  vec!(72, 77, 70, 49, 100, 99, 98, 97, 1, 0, 0, 0, 255, 255, 255, 255, 255, 255, 255, 255, 255, 255, 255, 255, 255, 255, 255, 255, 255, 255, 255, 255, 255, 255, 255, 255, 48, 0, 0, 0, 1, 0, 0, 0, 5, 0, 0, 0, 0, 0, 0, 0, 255, 255, 255, 255, 255, 255, 255, 255, 255, 255, 255, 255, 255, 255, 255, 255, 1, 0, 11, 0, 82, 84, 83, 67, 2, 0, 0, 0, 37, 0, 0, 0, 0, 0, 0, 0, 255, 255, 255, 255, 112, 97, 114, 97, 109, 101, 116, 101, 114, 50, 0, 7, 0, 0, 0, 118, 97, 108, 117, 101, 49, 0, 22, 0, 0, 0, 118, 97, 108, 117, 101, 32, 110, 43, 49, 32, 109, 117, 99, 104, 32, 108, 111, 110, 103, 101, 114, 0);
    assert_eq!(flattened_message, comparison);
}

#[test]
fn test_message_replace() {
    let constant: u32 = haiku_constant('q', 'w', 'e', 'r');
    let mut message = Message::new(constant);
    message.add_data("parameter1", &(159498393898 as i64)).unwrap();
    message.add_data("parameter1", &(940030747479 as i64)).unwrap();
    message.add_data("parameter1", &(573678299939 as i64)).unwrap();
    message.add_data("parameter2", &String::from("str1")).unwrap();
    message.add_data("parameter2", &String::from("string2")).unwrap();
    message.add_data("parameter2", &String::from("string number 3")).unwrap();
    let flattened_message = message.flatten();
    let comparison: Vec<u8> = vec!(72, 77, 70, 49, 114, 101, 119, 113, 1, 0, 0, 0, 255, 255, 255, 255, 255, 255, 255, 255, 255, 255, 255, 255, 255, 255, 255, 255, 255, 255, 255, 255, 255, 255, 255, 255, 87, 0, 0, 0, 2, 0, 0, 0, 5, 0, 0, 0, 0, 0, 0, 0, 255, 255, 255, 255, 255, 255, 255, 255, 255, 255, 255, 255, 255, 255, 255, 255, 3, 0, 11, 0, 71, 78, 76, 76, 3, 0, 0, 0, 24, 0, 0, 0, 0, 0, 0, 0, 1, 0, 0, 0, 1, 0, 11, 0, 82, 84, 83, 67, 3, 0, 0, 0, 41, 0, 0, 0, 35, 0, 0, 0, 255, 255, 255, 255, 112, 97, 114, 97, 109, 101, 116, 101, 114, 49, 0, 42, 89, 216, 34, 37, 0, 0, 0, 87, 227, 50, 222, 218, 0, 0, 0, 35, 43, 228, 145, 133, 0, 0, 0, 112, 97, 114, 97, 109, 101, 116, 101, 114, 50, 0, 5, 0, 0, 0, 115, 116, 114, 49, 0, 8, 0, 0, 0, 115, 116, 114, 105, 110, 103, 50, 0, 16, 0, 0, 0, 115, 116, 114, 105, 110, 103, 32, 110, 117, 109, 98, 101, 114, 32, 51, 0);
    assert_eq!(flattened_message, comparison);

    // Replace data with fixed size
    assert!(message.replace_data("parameter1", 1, &(-4939497933 as i64)).is_ok());
    let flattened_message = message.flatten();
    let comparison: Vec<u8> = vec!(72, 77, 70, 49, 114, 101, 119, 113, 1, 0, 0, 0, 255, 255, 255, 255, 255, 255, 255, 255, 255, 255, 255, 255, 255, 255, 255, 255, 255, 255, 255, 255, 255, 255, 255, 255, 87, 0, 0, 0, 2, 0, 0, 0, 5, 0, 0, 0, 0, 0, 0, 0, 255, 255, 255, 255, 255, 255, 255, 255, 255, 255, 255, 255, 255, 255, 255, 255, 3, 0, 11, 0, 71, 78, 76, 76, 3, 0, 0, 0, 24, 0, 0, 0, 0, 0, 0, 0, 1, 0, 0, 0, 1, 0, 11, 0, 82, 84, 83, 67, 3, 0, 0, 0, 41, 0, 0, 0, 35, 0, 0, 0, 255, 255, 255, 255, 112, 97, 114, 97, 109, 101, 116, 101, 114, 49, 0, 42, 89, 216, 34, 37, 0, 0, 0, 51, 62, 149, 217, 254, 255, 255, 255, 35, 43, 228, 145, 133, 0, 0, 0, 112, 97, 114, 97, 109, 101, 116, 101, 114, 50, 0, 5, 0, 0, 0, 115, 116, 114, 49, 0, 8, 0, 0, 0, 115, 116, 114, 105, 110, 103, 50, 0, 16, 0, 0, 0, 115, 116, 114, 105, 110, 103, 32, 110, 117, 109, 98, 101, 114, 32, 51, 0);
    assert_eq!(flattened_message, comparison);

    // Replace data with variable size
    assert!(message.replace_data("parameter2", 1, &String::from("longer string 2")).is_ok());
    let flattened_message = message.flatten();
    let comparison: Vec<u8> = vec!(72, 77, 70, 49, 114, 101, 119, 113, 1, 0, 0, 0, 255, 255, 255, 255, 255, 255, 255, 255, 255, 255, 255, 255, 255, 255, 255, 255, 255, 255, 255, 255, 255, 255, 255, 255, 95, 0, 0, 0, 2, 0, 0, 0, 5, 0, 0, 0, 0, 0, 0, 0, 255, 255, 255, 255, 255, 255, 255, 255, 255, 255, 255, 255, 255, 255, 255, 255, 3, 0, 11, 0, 71, 78, 76, 76, 3, 0, 0, 0, 24, 0, 0, 0, 0, 0, 0, 0, 1, 0, 0, 0, 1, 0, 11, 0, 82, 84, 83, 67, 3, 0, 0, 0, 49, 0, 0, 0, 35, 0, 0, 0, 255, 255, 255, 255, 112, 97, 114, 97, 109, 101, 116, 101, 114, 49, 0, 42, 89, 216, 34, 37, 0, 0, 0, 51, 62, 149, 217, 254, 255, 255, 255, 35, 43, 228, 145, 133, 0, 0, 0, 112, 97, 114, 97, 109, 101, 116, 101, 114, 50, 0, 5, 0, 0, 0, 115, 116, 114, 49, 0, 16, 0, 0, 0, 108, 111, 110, 103, 101, 114, 32, 115, 116, 114, 105, 110, 103, 32, 50, 0, 16, 0, 0, 0, 115, 116, 114, 105, 110, 103, 32, 110, 117, 109, 98, 101, 114, 32, 51, 0);
    assert_eq!(flattened_message, comparison);
}

#[test]
fn multi_value_ordering() {
    let mut m = Message::new(1);
    m.add_data("p", &1i32).unwrap();
    m.add_data("p", &2i32).unwrap();
    m.add_data("p", &3i32).unwrap();
    assert_eq!(m.find_data::<i32>("p", 0).unwrap(), 1);
    assert_eq!(m.find_data::<i32>("p", 1).unwrap(), 2);
    assert_eq!(m.find_data::<i32>("p", 2).unwrap(), 3);
    assert_eq!(m.find_data::<i32>("p", 3).unwrap_err().kind(), ErrorKind::InvalidInput);
    assert_eq!(m.get_info("p"), Some((haiku::types::B_INT32_TYPE, 3, true)));
}

#[test]
fn empty_message_is_a_bare_header() {
    let m = Message::new(haiku_constant('t', 'e', 's', 't'));
    let bytes = m.flatten();
    assert_eq!(bytes.len(), 68);
    assert_eq!(&bytes[0..4], b"HMF1");
    assert_eq!(&bytes[40..44], &[0, 0, 0, 0]);
    assert_eq!(&bytes[48..68], &[255u8; 20][..]);
}

#[test]
fn variable_values_read_back_in_order() {
    let mut m = Message::new(2);
    m.add_data("s", &String::from("first")).unwrap();
    m.add_data("s", &String::from("second")).unwrap();
    assert_eq!(m.find_data::<String>("s", 0).unwrap(), "first");
    assert_eq!(m.find_data::<String>("s", 1).unwrap(), "second");
}

#[test]
fn round_trip_keeps_code_and_values() {
    let mut m = Message::new(haiku_constant('r', 'n', 'd', 't'));
    m.add_data("a", &7u32).unwrap();
    m.add_data("b", &String::from("text")).unwrap();
    m.add_data("a", &9u32).unwrap();
    m.add_data("c", &true).unwrap();
    let back = Message::unflatten(&m.flatten()).unwrap();
    assert_eq!(back.what(), m.what());
    assert_eq!(back.find_data::<u32>("a", 0).unwrap(), 7);
    assert_eq!(back.find_data::<u32>("a", 1).unwrap(), 9);
    assert_eq!(back.find_data::<String>("b", 0).unwrap(), "text");
    assert!(back.find_data::<bool>("c", 0).unwrap());
    assert_eq!(back.flatten(), m.flatten());
}

#[test]
fn unflatten_rejects_bad_buffers() {
    let m = Message::new(3);
    let bytes = m.flatten();
    assert_eq!(Message::unflatten(&bytes[0..67]).unwrap_err().kind(), ErrorKind::InvalidData);
    let mut bad = bytes.clone();
    bad[0] = b'X';
    assert_eq!(Message::unflatten(&bad).unwrap_err().kind(), ErrorKind::InvalidData);
    let mut long = bytes.clone();
    long.push(0);
    assert_eq!(Message::unflatten(&long).unwrap_err().kind(), ErrorKind::InvalidData);
}

#[test]
fn lookups_fail_by_kind() {
    let mut m = Message::new(4);
    m.add_data("n", &5i32).unwrap();
    assert_eq!(m.find_data::<i32>("missing", 0).unwrap_err().kind(), ErrorKind::NotFound);
    assert_eq!(m.find_data::<u8>("n", 0).unwrap_err().kind(), ErrorKind::NotFound);
    assert_eq!(m.add_data("n", &1u8).unwrap_err().kind(), ErrorKind::InvalidInput);
    assert_eq!(m.add_data("", &1u8).unwrap_err().kind(), ErrorKind::InvalidInput);
    assert_eq!(m.remove_field("missing").unwrap_err().kind(), ErrorKind::NotFound);
    assert_eq!(m.remove_data("n", 3).unwrap_err().kind(), ErrorKind::InvalidInput);
    assert_eq!(m.replace_data("n", 0, &1u8).unwrap_err().kind(), ErrorKind::NotFound);
    assert_eq!(m.get_info("missing"), None);
}

#[test]
fn removal_keeps_other_fields_readable() {
    let mut m = Message::new(5);
    for (i, name) in ["f0", "f1", "f2", "f3", "f4", "f5", "f6"].iter().enumerate() {
        m.add_data(name, &(i as i32)).unwrap();
    }
    m.remove_field("f2").unwrap();
    m.remove_field("f0").unwrap();
    for (i, name) in ["f1", "f3", "f4", "f5", "f6"].iter().enumerate() {
        let want = [1, 3, 4, 5, 6][i];
        assert_eq!(m.find_data::<i32>(name, 0).unwrap(), want);
    }
    m.add_data("f2", &20i32).unwrap();
    assert_eq!(m.find_data::<i32>("f2", 0).unwrap(), 20);
    m.remove_data("f4", 0).unwrap();
    assert_eq!(m.find_data::<i32>("f4", 0).unwrap_err().kind(), ErrorKind::NotFound);
}

#[test]
fn names_sit_at_offsets_and_links_stay_live() {
    let mut m = Message::new(6);
    for name in ["alpha", "beta", "gamma", "delta", "epsilon", "zeta"].iter() {
        m.add_data(name, &String::from("v")).unwrap();
        m.add_data(name, &String::from("w")).unwrap();
    }
    m.remove_field("gamma").unwrap();
    m.remove_data("beta", 0).unwrap();
    m.replace_data("delta", 1, &String::from("a much longer value")).unwrap();
    m.remove_data("zeta", 1).unwrap();
    let names = ["alpha", "beta", "delta", "epsilon", "zeta"];
    assert_eq!(m.fields.len(), names.len());
    for (f, name) in m.fields.iter().zip(names.iter()) {
        let start = f.offset as usize;
        let end = start + f.name_length as usize;
        let mut want = name.as_bytes().to_vec();
        want.push(0);
        assert_eq!(&m.data[start..end], want.as_slice());
        assert!(f.next_field >= -1 && f.next_field < m.fields.len() as i32);
    }
    for entry in m.header.hash_table.iter() {
        assert!(*entry >= -1 && *entry < m.fields.len() as i32);
    }
    assert_eq!(m.find_data::<String>("delta", 1).unwrap(), "a much longer value");
    assert_eq!(m.find_data::<String>("beta", 0).unwrap(), "w");
    assert_eq!(m.get_info("zeta"), Some((haiku::types::B_STRING_TYPE, 1, false)));
}

#[test]
fn edits_keep_the_header() {
    let mut m = Message::new(8);
    m.header.reply_port = 5;
    m.header.reply_team = 6;
    m.header.current_specifier = 2;
    m.add_data("a", &1u8).unwrap();
    m.replace_data("a", 0, &2u8).unwrap();
    assert!(m.remove_data("a", 4).is_err());
    assert_eq!(m.header.reply_port, 5);
    assert_eq!(m.header.reply_team, 6);
    assert_eq!(m.header.current_specifier, 2);
    assert_eq!(&m.flatten()[0..4], b"HMF1");
    m.header.message_format = 0;
    assert_eq!(&m.flatten()[0..4], b"HMF1");
}
