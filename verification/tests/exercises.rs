use cs220::calendar::{next_weekday, DayOfWeek};
use cs220::numeric::{chooses, gcd, sum_array, up3, zip};
use cs220::roster::organize;
use cs220::shell::parse_shell_command;
use cs220::text::{capitalize, is_palindrome, piglatin, use_editor, TypeEvent};

#[test]
fn test_sum_array() {
    assert_eq!(sum_array(&[]), 0);
    assert_eq!(sum_array(&[1, 2, 3]), 6);
}

#[test]
fn test_up3() {
    assert_eq!(up3(0), 1);
    assert_eq!(up3(1), 1);
    assert_eq!(up3(6), 9);
    assert_eq!(up3(9), 9);
    assert_eq!(up3(10), 27);
}

#[test]
fn test_gcd() {
    assert_eq!(gcd(12, 18), 6);
    assert_eq!(gcd(5, 0), 5);
    assert_eq!(gcd(0, 7), 7);
    assert_eq!(gcd(0, 0), 0);
}

#[test]
fn test_chooses() {
    assert_eq!(chooses(0), vec![1]);
    assert_eq!(chooses(1), vec![1, 1]);
    assert_eq!(chooses(4), vec![1, 4, 6, 4, 1]);
    assert_eq!(chooses(5), vec![1, 5, 10, 10, 5, 1]);
}

#[test]
fn test_zip() {
    assert_eq!(zip(vec![1, 2, 3], vec![4, 5]), vec![(1, 4), (2, 5)]);
    assert_eq!(zip(vec![], vec![4, 5]), vec![]);
}

#[test]
fn test_next_weekday() {
    assert_eq!(next_weekday(DayOfWeek::Thu), DayOfWeek::Fri);
    assert_eq!(next_weekday(DayOfWeek::Fri), DayOfWeek::Mon);
    assert_eq!(next_weekday(DayOfWeek::Sat), DayOfWeek::Mon);
    assert_eq!(next_weekday(DayOfWeek::Sun), DayOfWeek::Mon);
}

#[test]
fn test_capitalize() {
    assert_eq!(capitalize("hello World-1".to_string()), "HELLO WORLD-1");
    assert_eq!(capitalize(String::new()), "");
}

#[test]
fn test_capitalize_keeps_non_ascii() {
    assert_eq!(capitalize("h\u{e9}llo".to_string()), "H\u{e9}LLO");
}

#[test]
fn test_piglatin() {
    assert_eq!(piglatin("happy".to_string()), "appyhay");
    assert_eq!(piglatin("string".to_string()), "ingstray");
    assert_eq!(piglatin("explain".to_string()), "explainhay");
}

#[test]
fn test_is_palindrome() {
    assert!(is_palindrome(String::new()));
    assert!(is_palindrome("a".to_string()));
    assert!(is_palindrome("abba".to_string()));
    assert!(is_palindrome("aba".to_string()));
    assert!(!is_palindrome("abc".to_string()));
}

#[test]
fn test_editor() {
    let events = vec![
        TypeEvent::Type('h'),
        TypeEvent::Type('i'),
        TypeEvent::Copy,
        TypeEvent::Paste,
        TypeEvent::Backspace,
    ];
    assert_eq!(use_editor(events), "hih");
}

#[test]
fn test_editor_backspace_on_empty() {
    let events = vec![TypeEvent::Backspace, TypeEvent::Type('x'), TypeEvent::Paste];
    assert_eq!(use_editor(events), "x");
}

#[test]
fn test_shell_plain_words() {
    assert_eq!(parse_shell_command("cat file"), vec!["cat", "file"]);
}

#[test]
fn test_shell_quotes() {
    assert_eq!(
        parse_shell_command("ls 'VirtualBox VMs'"),
        vec!["ls", "VirtualBox VMs"]
    );
    assert_eq!(
        parse_shell_command("ls VirtualBox' 'VMs"),
        vec!["ls", "VirtualBox VMs"]
    );
}

#[test]
fn test_shell_extra_spaces() {
    assert_eq!(parse_shell_command("  a   b "), vec!["a", "b"]);
    assert_eq!(parse_shell_command(""), Vec::<String>::new());
}

#[test]
fn test_organize() {
    let commands = vec![
        "Add Amir to Engineering".to_string(),
        "Add Sally to Sales".to_string(),
        "Remove Jeehoon from Sales".to_string(),
        "Move Amir from Engineering to Sales".to_string(),
    ];
    let table = organize(commands);
    assert_eq!(
        table,
        vec![("Sales".to_string(), vec!["Sally".to_string(), "Amir".to_string()])]
    );
}

#[test]
fn test_organize_ignores_bad_commands() {
    let commands = vec![
        "Fire everyone".to_string(),
        "Remove Bob from Nowhere".to_string(),
        "Move Ann from Nowhere to Sales".to_string(),
        "Add Ann to Sales".to_string(),
        "Add Ann to Sales".to_string(),
    ];
    let table = organize(commands);
    assert_eq!(table, vec![("Sales".to_string(), vec!["Ann".to_string()])]);
}

#[test]
fn test_organize_splits_on_tabs() {
    let commands = vec!["Add\tBob\tto Ops".to_string()];
    assert_eq!(
        organize(commands),
        vec![("Ops".to_string(), vec!["Bob".to_string()])]
    );
}

#[test]
fn test_organize_empty_department_disappears() {
    let commands = vec![
        "Add Bob to Ops".to_string(),
        "Remove Bob from Ops".to_string(),
    ];
    assert_eq!(organize(commands), vec![]);
}
