use os::coquille::{
    char_slice_to_utf8_slice, get_slice_first_zero, Coquille, Key, ShellAction, COMMAND_BYTES,
    COMMAND_MAX_LENGTH,
};

fn command_of(action: ShellAction) -> String {
    match action {
        ShellAction::Execute { length, bytes } => {
            String::from_utf8(bytes[..length].to_vec()).expect("not valid utf-8")
        }
        other => panic!("not a command: {:?}", other),
    }
}

fn type_text(shell: &mut Coquille, text: &str) {
    for c in text.chars() {
        let _ = shell.push_key(Key::Unicode(c));
    }
}

#[test]
fn first_zero_of_a_slice() {
    assert_eq!(get_slice_first_zero(&[]), 0);
    assert_eq!(get_slice_first_zero(&[0]), 0);
    assert_eq!(get_slice_first_zero(&[1, 2, 0, 4, 0]), 2);
    assert_eq!(get_slice_first_zero(&[1, 2, 3]), 3);
}

#[test]
fn utf8_of_a_command() {
    let (length, bytes) = char_slice_to_utf8_slice(&['l', 's', ' ', 'é', '€', '𝄞']);
    assert_eq!(length, 12);
    assert_eq!(&bytes[..length], "ls é€𝄞".as_bytes());
    assert!(bytes[length..].iter().all(|byte| *byte == 0));
}

#[test]
fn utf8_of_nothing() {
    let (length, bytes) = char_slice_to_utf8_slice(&[]);
    assert_eq!(length, 0);
    assert!(bytes.iter().all(|byte| *byte == 0));
}

#[test]
fn utf8_leaves_nul_characters_out() {
    let (length, bytes) = char_slice_to_utf8_slice(&['a', '\0', 'b', '\0']);
    assert_eq!(length, 2);
    assert_eq!(&bytes[..length], b"ab");
}

#[test]
fn utf8_of_the_longest_command_fills_the_buffer() {
    let command = ['𝄞'; COMMAND_MAX_LENGTH];
    let (length, bytes) = char_slice_to_utf8_slice(&command);
    assert_eq!(length, COMMAND_BYTES);
    assert_eq!(&bytes[..4], "𝄞".as_bytes());
    assert_eq!(&bytes[COMMAND_BYTES - 4..], "𝄞".as_bytes());
}

#[test]
fn shell_echoes_what_is_typed() {
    let mut shell = Coquille::default();
    match shell.push_key(Key::Unicode('a')) {
        ShellAction::Echo { character, limit } => {
            assert_eq!(character, 'a');
            assert!(!limit);
        }
        other => panic!("unexpected {:?}", other),
    }
}

#[test]
fn shell_hands_the_line_out_on_line_feed() {
    let mut shell = Coquille::default();
    type_text(&mut shell, "echo été");
    assert_eq!(command_of(shell.push_key(Key::Unicode('\n'))), "echo été");
    // The line is empty afterwards.
    assert_eq!(command_of(shell.push_key(Key::Unicode('\n'))), "");
}

#[test]
fn shell_backspace_drops_the_last_character() {
    let mut shell = Coquille::default();
    assert!(matches!(shell.push_key(Key::Unicode('\u{8}')), ShellAction::Backspace));
    type_text(&mut shell, "lsx");
    assert!(matches!(shell.push_key(Key::Unicode('\u{8}')), ShellAction::Backspace));
    assert_eq!(command_of(shell.push_key(Key::Unicode('\n'))), "ls");
}

#[test]
fn shell_ignores_raw_keys() {
    let mut shell = Coquille::default();
    type_text(&mut shell, "ab");
    assert!(matches!(shell.push_key(Key::RawKey), ShellAction::Ignore));
    assert_eq!(command_of(shell.push_key(Key::Unicode('\n'))), "ab");
}

#[test]
fn shell_says_when_the_line_is_full() {
    let mut shell = Coquille::default();
    for _ in 0..COMMAND_MAX_LENGTH {
        assert!(matches!(
            shell.push_key(Key::Unicode('x')),
            ShellAction::Echo { character: 'x', limit: false }
        ));
    }
    assert!(matches!(
        shell.push_key(Key::Unicode('y')),
        ShellAction::Echo { character: 'y', limit: true }
    ));
    let command = command_of(shell.push_key(Key::Unicode('\n')));
    assert_eq!(command.len(), COMMAND_MAX_LENGTH);
    assert!(command.chars().all(|c| c == 'x'));
}
