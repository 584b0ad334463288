use protohackers::chat::{check_name, Event, NameError, State};

fn s(text: &str) -> String {
    text.to_owned()
}

#[test]
fn names_are_checked() {
    assert_eq!(check_name("alice"), Ok(()));
    assert_eq!(check_name("Bob42"), Ok(()));
    assert_eq!(check_name("azAZ09"), Ok(()));
    assert_eq!(check_name(""), Err(NameError::Empty));
    assert_eq!(check_name("al ice"), Err(NameError::IllegalCharacters));
    assert_eq!(check_name("alice!"), Err(NameError::IllegalCharacters));
    assert_eq!(check_name("al-ice"), Err(NameError::IllegalCharacters));
    assert_eq!(check_name("\u{e9}lodie"), Err(NameError::IllegalCharacters));
    assert_eq!(check_name("a{"), Err(NameError::IllegalCharacters));
    assert_eq!(check_name("a`"), Err(NameError::IllegalCharacters));
    assert_eq!(check_name("a["), Err(NameError::IllegalCharacters));
    assert_eq!(check_name("a@"), Err(NameError::IllegalCharacters));
    assert_eq!(check_name("a/"), Err(NameError::IllegalCharacters));
    assert_eq!(check_name("a:"), Err(NameError::IllegalCharacters));
}

#[test]
fn name_error_texts() {
    assert_eq!(NameError::Empty.message(), "Your name cannot be empty");
    assert_eq!(
        NameError::IllegalCharacters.message(),
        "Your name can only have alphanumeric characters (uppercase, lowercase, digits)"
    );
    assert_eq!(NameError::Taken.message(), "Name already taken");
}

#[test]
fn joining_tells_those_who_are_there() {
    let mut room = State::default();
    let told = room.add_client(s("alice")).unwrap();
    assert_eq!(told.event, Event::NewClient(s("alice")));
    assert!(told.recipients.is_empty());
    let told = room.add_client(s("bob")).unwrap();
    assert_eq!(told.event, Event::NewClient(s("bob")));
    assert_eq!(told.recipients, vec![s("alice")]);
    let told = room.add_client(s("carol")).unwrap();
    assert_eq!(told.recipients, vec![s("alice"), s("bob")]);
    assert_eq!(room.get_present_names(), vec![s("alice"), s("bob"), s("carol")]);
}

#[test]
fn a_name_that_is_taken_is_refused() {
    let mut room = State::default();
    room.add_client(s("alice")).unwrap();
    assert_eq!(room.add_client(s("alice")).unwrap_err(), NameError::Taken);
    assert_eq!(room.get_present_names(), vec![s("alice")]);
    assert!(room.add_client(s("Alice")).is_ok());
}

#[test]
fn a_line_goes_to_everyone_else() {
    let mut room = State::default();
    room.add_client(s("alice")).unwrap();
    room.add_client(s("bob")).unwrap();
    room.add_client(s("carol")).unwrap();
    let told = room.broadcast_message(s("bob"), s("hi all"));
    assert_eq!(told.event, Event::Message(s("bob"), s("hi all")));
    assert_eq!(told.recipients, vec![s("alice"), s("carol")]);
    let told = room.broadcast_message(s("dave"), s("who hears me"));
    assert_eq!(told.recipients, vec![s("alice"), s("bob"), s("carol")]);
    assert_eq!(room.get_present_names().len(), 3);
}

#[test]
fn leaving_tells_those_who_stay() {
    let mut room = State::default();
    room.add_client(s("alice")).unwrap();
    room.add_client(s("bob")).unwrap();
    room.add_client(s("carol")).unwrap();
    let told = room.disconnect_client(s("alice"));
    assert_eq!(told.event, Event::Disconnect(s("alice")));
    assert_eq!(told.recipients, vec![s("bob"), s("carol")]);
    assert_eq!(room.get_present_names(), vec![s("bob"), s("carol")]);
    let told = room.disconnect_client(s("zed"));
    assert_eq!(told.recipients, vec![s("bob"), s("carol")]);
    assert!(room.add_client(s("alice")).is_ok());
}
