use secret_manager::encrypter::{decrypt, encrypt};
use secret_manager::lines::get_lines;
use secret_manager::model::Search;
use secret_manager::secret_errors::{
    SecretAddError, SecretDeleteError, SecretGetError, SecretSetError,
};
use secret_manager::store::{
    add, check_name, delete, get, insert_record, plaintext_of, search, upsert_record,
};

fn fixture() -> String {
    let mut store = String::new();
    store.push_str("{2}T1:T2\n");
    store.push_str("{4}Mega:Password\n");
    store.push_str("{11}BeetleJuice:BeetleJuice BeetleJuice BeetleJuice\n");
    store.push_str("{2}T1:T2\n");
    store
}

fn last_line(store: &str) -> String {
    let mut last = String::from("");
    for line in get_lines(store) {
        last = line.to_string();
    }
    last
}

fn three_names() -> String {
    let mut store = String::new();
    for (name, value) in [("A", "first"), ("B", "second"), ("C", "third")] {
        store.push_str(&add(&store, name, value, "k").unwrap());
    }
    store
}

#[test]
fn add_should_add_new_encrypted_text_to_file() {
    let mut store = fixture();
    if let Ok(appendix) = add(&store, "NewKey", "NewValue", "Default_Key") {
        store.push_str(&appendix);
    }
    assert_eq!("{6}NewKey:VHvrPpJj4ymIhDsJtSZWSA==", last_line(&store));
}

#[test]
fn add_should_not_allow_duplicates_in_file() {
    let mut store = fixture();
    if let Ok(appendix) = add(&store, "Mega", "NewValue", "Default_Key") {
        store.push_str(&appendix);
    }
    assert_eq!("{2}T1:T2", last_line(&store));
}

#[test]
fn get_should_return_decrypted_text() {
    let default_key = "Default_Key";
    let store = "{4}Mega:0h/oRBXYpzAbLRqyY3XfVQ==\n";
    let result = get(store, "Mega", default_key);
    assert_eq!("Password", result.unwrap())
}

#[test]
fn add_returns_the_line_to_append_with_its_newline() {
    assert_eq!(
        add("", "NewKey", "NewValue", "Default_Key"),
        Ok("{6}NewKey:VHvrPpJj4ymIhDsJtSZWSA==\n".to_string())
    );
    assert_eq!(
        add(&fixture(), "NewKey", "NewValue", "Default_Key"),
        Ok("{6}NewKey:VHvrPpJj4ymIhDsJtSZWSA==\n".to_string())
    );
}

#[test]
fn add_names_the_duplicate() {
    assert_eq!(
        add(&fixture(), "Mega", "NewValue", "Default_Key"),
        Err(SecretAddError::DuplicateKey("Mega".to_string()))
    );
    assert_eq!(
        add(&fixture(), "T1", "NewValue", "Default_Key"),
        Err(SecretAddError::DuplicateKey("T1".to_string()))
    );
}

#[test]
fn add_twice_fails_the_second_time_and_keeps_the_first_record() {
    let mut store = fixture();
    store.push_str(&add(&store, "n", "v", "k").unwrap());
    let after_first = store.clone();
    assert_eq!(add(&store, "n", "v2", "k"), Err(SecretAddError::DuplicateKey("n".to_string())));
    assert_eq!(store, after_first);
    assert_eq!(get(&store, "n", "k"), Ok("v".to_string()));
}

#[test]
fn add_compares_names_exactly() {
    let store = add("", "Mega", "v", "k").unwrap();
    assert!(add(&store, "mega", "v", "k").is_ok());
    assert!(add(&store, "Mega ", "v", "k").is_ok());
    assert!(add(&store, "Meg", "v", "k").is_ok());
    assert!(add(&store, "Mega", "v", "k").is_err());
}

#[test]
fn add_stops_at_a_line_that_is_no_record() {
    assert_eq!(add("garbage\n", "n", "v", "k"), Err(SecretAddError::MalformedRecord));
    assert_eq!(
        add("{1}a:b\ngarbage\n{1}n:c\n", "n", "v", "k"),
        Err(SecretAddError::MalformedRecord)
    );
    assert_eq!(
        add("{1}n:c\ngarbage\n", "n", "v", "k"),
        Err(SecretAddError::DuplicateKey("n".to_string()))
    );
}

#[test]
fn insert_record_encodes_the_ciphertext_it_is_given() {
    assert_eq!(insert_record("", "Mega", "XYZ"), Ok("{4}Mega:XYZ\n".to_string()));
    assert_eq!(insert_record("{1}a:b\n", "Key:Ke", "c:d"), Ok("{6}Key:Ke:c:d\n".to_string()));
    assert_eq!(
        insert_record("{1}a:b\n", "a", "c"),
        Err(SecretAddError::DuplicateKey("a".to_string()))
    );
    assert_eq!(insert_record("{1}a\n", "a", "c"), Err(SecretAddError::MalformedRecord));
}

#[test]
fn get_on_an_empty_store_finds_nothing() {
    assert_eq!(get("", "Mega", "k"), Err(SecretGetError::KeyNotFound));
}

#[test]
fn get_finds_nothing_under_another_name() {
    let store = add("", "Mega", "Password", "k").unwrap();
    assert_eq!(get(&store, "mega", "k"), Err(SecretGetError::KeyNotFound));
    assert_eq!(get(&store, "Meg", "k"), Err(SecretGetError::KeyNotFound));
    assert_eq!(get(&store, "", "k"), Err(SecretGetError::KeyNotFound));
    assert_eq!(get(&store, "Mega\n", "k"), Err(SecretGetError::KeyNotFound));
}

#[test]
fn get_fails_under_another_key() {
    let store = add("", "Mega", "Password", "Default_Key").unwrap();
    assert!(matches!(get(&store, "Mega", "WrongKey"), Err(SecretGetError::DecryptionFailed(_))));
}

#[test]
fn get_fails_on_a_ciphertext_that_is_none() {
    assert!(matches!(
        get("{4}Mega:Password\n", "Mega", "k"),
        Err(SecretGetError::DecryptionFailed(_))
    ));
    assert!(matches!(get("{4}Mega:\n", "Mega", "k"), Err(SecretGetError::DecryptionFailed(_))));
}

#[test]
fn get_returns_the_first_record_of_the_name() {
    let mut store = String::new();
    store.push_str(&insert_record("", "n", &encrypt("first", "k")).unwrap());
    store.push_str(&format!("{{1}}n:{}\n", encrypt("second", "k")));
    assert_eq!(get(&store, "n", "k"), Ok("first".to_string()));
}

#[test]
fn get_stops_at_a_line_that_is_no_record() {
    let record = add("", "n", "v", "k").unwrap();
    let garbage_first = format!("garbage\n{}", record);
    let empty_line_first = format!("\n{}", record);
    let garbage_last = format!("{}garbage\n", record);
    assert_eq!(get(&garbage_first, "n", "k"), Err(SecretGetError::MalformedRecord));
    assert_eq!(get(&empty_line_first, "n", "k"), Err(SecretGetError::MalformedRecord));
    assert_eq!(get(&garbage_last, "n", "k"), Ok("v".to_string()));
    assert_eq!(get(&garbage_last, "m", "k"), Err(SecretGetError::MalformedRecord));
}

#[test]
fn get_reads_a_store_with_carriage_returns() {
    let record = add("", "n", "v", "k").unwrap();
    let store = record.replace('\n', "\r\n");
    assert_eq!(get(&store, "n", "k"), Ok("v".to_string()));
}

#[test]
fn get_reads_a_last_line_without_its_newline() {
    let record = add("", "n", "v", "k").unwrap();
    assert_eq!(get(record.trim_end(), "n", "k"), Ok("v".to_string()));
}

#[test]
fn search_gives_the_ciphertext_as_it_stands() {
    assert_eq!(search(&fixture(), "Mega"), Search::Found("Password"));
    assert_eq!(search(&fixture(), "T1"), Search::Found("T2"));
    assert_eq!(search(&fixture(), "T2"), Search::Absent);
    assert_eq!(search("", "T1"), Search::Absent);
    assert_eq!(search("{2}T1:T2\n{2}T1\n", "T1"), Search::Found("T2"));
    assert_eq!(search("{2}T1:T2\n{2}T1\n", "T2"), Search::Malformed);
}

#[test]
fn plaintext_of_passes_a_secret_on_and_wraps_a_failure() {
    assert_eq!(plaintext_of(Ok("secret".to_string())), Ok("secret".to_string()));
    let failure = decrypt("0h/oRBXYpzAbLRqyY3XfVQ==", "WrongKey");
    assert!(failure.is_err());
    let expected = format!("{}", failure.as_ref().unwrap_err());
    assert_eq!(plaintext_of(failure), Err(SecretGetError::DecryptionFailed(expected)));
}

#[test]
fn set_on_a_store_without_the_name_adds_one_record() {
    let store = three_names();
    let after = secret_manager::store::set(&store, "D", "fourth", "k").unwrap();
    assert_eq!(after, format!("{}{}", store, add(&store, "D", "fourth", "k").unwrap()));
    assert_eq!(get_lines(&after).len(), 4);
    assert_eq!(get(&after, "D", "k"), Ok("fourth".to_string()));
}

#[test]
fn set_on_an_empty_store_writes_the_record() {
    assert_eq!(
        secret_manager::store::set("", "NewKey", "NewValue", "Default_Key"),
        Ok("{6}NewKey:VHvrPpJj4ymIhDsJtSZWSA==\n".to_string())
    );
}

#[test]
fn set_on_a_store_with_the_name_leaves_one_record_of_it() {
    let store = three_names();
    let after = secret_manager::store::set(&store, "B", "changed", "k").unwrap();
    let before_lines = get_lines(&store);
    let after_lines = get_lines(&after);
    assert_eq!(after_lines.len(), 3);
    assert_eq!(after_lines[0], before_lines[0]);
    assert_eq!(after_lines[1], before_lines[2]);
    assert_eq!(after_lines[2], format!("{{1}}B:{}", encrypt("changed", "k")));
    assert_eq!(get(&after, "A", "k"), Ok("first".to_string()));
    assert_eq!(get(&after, "B", "k"), Ok("changed".to_string()));
    assert_eq!(get(&after, "C", "k"), Ok("third".to_string()));
}

#[test]
fn set_takes_out_every_record_of_the_name() {
    let after = secret_manager::store::set(&fixture(), "T1", "v", "k").unwrap();
    assert_eq!(
        after,
        format!(
            "{}{}{{2}}T1:{}\n",
            "{4}Mega:Password\n",
            "{11}BeetleJuice:BeetleJuice BeetleJuice BeetleJuice\n",
            encrypt("v", "k")
        )
    );
}

#[test]
fn set_fails_on_a_line_that_is_no_record() {
    assert_eq!(
        secret_manager::store::set("{1}a:b\ngarbage\n", "a", "v", "k"),
        Err(SecretSetError::MalformedRecord)
    );
    assert_eq!(
        secret_manager::store::set("garbage", "a", "v", "k"),
        Err(SecretSetError::MalformedRecord)
    );
}

#[test]
fn upsert_record_encodes_the_ciphertext_it_is_given() {
    assert_eq!(upsert_record("", "Mega", "XYZ"), Ok("{4}Mega:XYZ\n".to_string()));
    assert_eq!(
        upsert_record("{1}a:b\n{1}c:d\n", "a", "e"),
        Ok("{1}c:d\n{1}a:e\n".to_string())
    );
    assert_eq!(
        upsert_record("{1}a:b\r\n{1}c:d", "x", "y"),
        Ok("{1}a:b\n{1}c:d\n{1}x:y\n".to_string())
    );
    assert_eq!(upsert_record("{1}a:b\n\n", "a", "e"), Err(SecretSetError::MalformedRecord));
}

#[test]
fn delete_removes_the_name_and_keeps_the_others_in_order() {
    let store = three_names();
    let after = delete(&store, "B").unwrap();
    let before_lines = get_lines(&store);
    assert_eq!(get_lines(&after), vec![before_lines[0], before_lines[2]]);
    assert_eq!(get(&after, "B", "k"), Err(SecretGetError::KeyNotFound));
    assert_eq!(get(&after, "A", "k"), Ok("first".to_string()));
    assert_eq!(get(&after, "C", "k"), Ok("third".to_string()));
}

#[test]
fn delete_writes_the_lines_that_stay() {
    assert_eq!(
        delete(&fixture(), "Mega"),
        Ok("{2}T1:T2\n{11}BeetleJuice:BeetleJuice BeetleJuice BeetleJuice\n{2}T1:T2\n".to_string())
    );
    assert_eq!(
        delete(&fixture(), "T1"),
        Ok("{4}Mega:Password\n{11}BeetleJuice:BeetleJuice BeetleJuice BeetleJuice\n".to_string())
    );
    assert_eq!(delete("{1}a:b\n", "a"), Ok("".to_string()));
    assert_eq!(delete("{1}a:b\r\n{1}c:d", "a"), Ok("{1}c:d\n".to_string()));
}

#[test]
fn delete_of_a_name_that_is_not_there_fails() {
    assert_eq!(delete(&fixture(), "X"), Err(SecretDeleteError::KeyNotFound));
    assert_eq!(delete(&fixture(), "mega"), Err(SecretDeleteError::KeyNotFound));
    assert_eq!(delete("", "X"), Err(SecretDeleteError::KeyNotFound));
}

#[test]
fn delete_fails_on_a_line_that_is_no_record() {
    assert_eq!(delete("{1}a:b\ngarbage\n", "a"), Err(SecretDeleteError::MalformedRecord));
    assert_eq!(delete("garbage\n{1}a:b\n", "a"), Err(SecretDeleteError::MalformedRecord));
    assert_eq!(delete("{1}a:b\n\n", "x"), Err(SecretDeleteError::MalformedRecord));
}

#[test]
fn get_add_and_get_under_another_key() {
    let mut store = String::new();
    store.push_str(&add(&store, "Mega", "Password", "Default_Key").unwrap());
    let lines = get_lines(&store);
    assert_eq!(lines.len(), 1);
    let (name, _) = secret_manager::codec::read_line(lines[0]).unwrap();
    assert_eq!(name, "Mega");
    assert_eq!(get(&store, "Mega", "Default_Key"), Ok("Password".to_string()));
    assert!(matches!(get(&store, "Mega", "WrongKey"), Err(SecretGetError::DecryptionFailed(_))));
}

#[test]
fn a_name_and_a_secret_with_the_delimiter() {
    let mut store = String::new();
    store.push_str(&add(&store, "Key:Ke", "Value:Value", "k").unwrap());
    assert_eq!(get(&store, "Key:Ke", "k"), Ok("Value:Value".to_string()));
    assert_eq!(get(&store, "Key", "k"), Err(SecretGetError::KeyNotFound));
}

#[test]
fn names_of_other_scripts_and_of_many_bytes() {
    let long = "n".repeat(250);
    let mut store = String::new();
    for name in ["日本語", "é", "🔑", "{3}abc", long.as_str()] {
        store.push_str(&add(&store, name, name, "k").unwrap());
    }
    for name in ["日本語", "é", "🔑", "{3}abc", long.as_str()] {
        assert_eq!(get(&store, name, "k"), Ok(name.to_string()));
    }
    let after = delete(&store, "é").unwrap();
    assert_eq!(get(&after, "é", "k"), Err(SecretGetError::KeyNotFound));
    assert_eq!(get(&after, "🔑", "k"), Ok("🔑".to_string()));
}

#[test]
fn a_store_stays_a_store_through_the_operations() {
    let mut store = String::new();
    store.push_str(&add(&store, "a", "1", "k").unwrap());
    store.push_str(&add(&store, "b", "2", "k").unwrap());
    store = secret_manager::store::set(&store, "a", "3", "k").unwrap();
    store = secret_manager::store::set(&store, "c", "4", "k").unwrap();
    store = delete(&store, "b").unwrap();
    assert!(store.ends_with('\n'));
    let lines = get_lines(&store);
    assert_eq!(lines.len(), 2);
    assert_eq!(get(&store, "a", "k"), Ok("3".to_string()));
    assert_eq!(get(&store, "b", "k"), Err(SecretGetError::KeyNotFound));
    assert_eq!(get(&store, "c", "k"), Ok("4".to_string()));
    assert_eq!(add(&store, "a", "5", "k"), Err(SecretAddError::DuplicateKey("a".to_string())));
}

#[test]
fn check_name_refuses_the_empty_name_and_a_newline() {
    assert!(check_name("Mega"));
    assert!(check_name("Key:Ke"));
    assert!(check_name("{}"));
    assert!(check_name("with\rreturn"));
    assert!(check_name("日本語"));
    assert!(!check_name(""));
    assert!(!check_name("\n"));
    assert!(!check_name("two\nlines"));
    assert!(!check_name("line\n"));
}

#[test]
fn no_operation_reports_a_failed_write() {
    let stores = ["", "garbage\n", "{1}a:b\n", "{1}a:b", "{1}a:b\n{1}a:c\n", "\n"];
    for store in stores {
        for name in ["a", "b"] {
            assert!(!matches!(
                add(store, name, "v", "k"),
                Err(SecretAddError::SecretWriteFailed(_))
            ));
            assert!(!matches!(
                secret_manager::store::set(store, name, "v", "k"),
                Err(SecretSetError::SecretWriteFailed(_))
            ));
            assert!(!matches!(
                delete(store, name),
                Err(SecretDeleteError::SecretWriteFailed(_))
            ));
        }
    }
}
