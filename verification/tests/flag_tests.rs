use flag::Flag;
use flag::ParseOutcome;
use std::collections::VecDeque;

fn toks(xs: &[&str]) -> Vec<String> {
    xs.iter().map(|s| s.to_string()).collect()
}

fn deque(xs: &[&str]) -> VecDeque<String> {
    xs.iter().map(|s| s.to_string()).collect()
}

#[test]
fn flag_test() {
    let mut flag = Flag::new();
    let host = flag.reg_string(String::from("-h"), String::from("localhost"), String::from("host"));
    let port = flag.reg_u32(String::from("-p"), 80, String::from("port"));
    let address = flag.reg_lengthen_str_vec(
        String::from("-address"),
        deque(&["a", "b", "c"]),
        String::from("address"),
    );
    let packages = flag.reg_fixed_str_vec(
        String::from("-packages"),
        deque(&["libmath", "../third"]),
        String::from("packages"),
    );
    let out = flag.parse(&toks(&["prog"]));
    assert!(matches!(out, ParseOutcome::Done));
    println!("{}", flag.read_string(&host).unwrap());
    println!("{}", flag.read_u32(&port).unwrap());
    for item in flag.read_vector(&address).unwrap() {
        println!("{}", item);
    }
    for item in flag.read_vector(&packages).unwrap() {
        println!("{}", item);
    }
    assert_eq!(flag.read_string(&host).unwrap(), "localhost");
    assert_eq!(flag.read_u32(&port).unwrap(), 80);
    assert_eq!(flag.read_vector(&address).unwrap(), toks(&["a", "b", "c"]));
    assert_eq!(flag.read_vector(&packages).unwrap(), toks(&["libmath", "../third"]));
}

#[test]
fn scalar_string_overwrite() {
    let mut flag = Flag::new();
    let host = flag.reg_string(String::from("-h"), String::from("localhost"), String::from("host"));
    let out = flag.parse(&toks(&["prog", "-h", "foo"]));
    assert!(matches!(out, ParseOutcome::Done));
    assert_eq!(flag.read_string(&host).unwrap(), "foo");
}

#[test]
fn numeric_scalar_overwrite() {
    let mut flag = Flag::new();
    let port = flag.reg_u32(String::from("-p"), 80, String::from("port"));
    let out = flag.parse(&toks(&["prog", "-p", "8080"]));
    assert!(matches!(out, ParseOutcome::Done));
    assert_eq!(flag.read_u32(&port).unwrap(), 8080);
}

#[test]
fn numeric_scalar_conversion_error() {
    let mut flag = Flag::new();
    let port = flag.reg_u32(String::from("-p"), 80, String::from("port"));
    let out = flag.parse(&toks(&["prog", "-p", "notanumber"]));
    assert!(matches!(out, ParseOutcome::Done));
    // The stored text is no number: the typed read fails, which the caller
    // reports as a fatal type-conversion error.
    assert_eq!(flag.read_u32(&port), None);
    assert_eq!(flag.read_string(&port).unwrap(), "notanumber");
}

#[test]
fn fixed_vec_in_order() {
    let mut flag = Flag::new();
    let packages = flag.reg_fixed_str_vec(
        String::from("-packages"),
        deque(&["libmath", "../third"]),
        String::from("packages"),
    );
    let out = flag.parse(&toks(&["prog", "-packages", "x", "y"]));
    assert!(matches!(out, ParseOutcome::Done));
    assert_eq!(flag.read_vector(&packages).unwrap(), toks(&["x", "y"]));
}

#[test]
fn fixed_vec_ordering_error() {
    let mut flag = Flag::new();
    let _packages = flag.reg_fixed_str_vec(
        String::from("-packages"),
        deque(&["libmath", "../third"]),
        String::from("packages"),
    );
    let _host = flag.reg_string(String::from("-h"), String::from("localhost"), String::from("host"));
    let out = flag.parse(&toks(&["prog", "-packages", "x", "-h", "foo"]));
    match out {
        ParseOutcome::Unmatched(key) => assert_eq!(key, "-h"),
        _ => panic!("expected an ordering error"),
    }
}

#[test]
fn fixed_vec_partial_fill_keeps_default_tail() {
    let mut flag = Flag::new();
    let packages = flag.reg_fixed_str_vec(
        String::from("-packages"),
        deque(&["libmath", "../third"]),
        String::from("packages"),
    );
    let out = flag.parse(&toks(&["prog", "-packages", "x"]));
    assert!(matches!(out, ParseOutcome::Done));
    assert_eq!(flag.read_vector(&packages).unwrap(), toks(&["x", "../third"]));
}

#[test]
fn open_vec_overwrites_visible_through_handle() {
    let mut flag = Flag::new();
    let address = flag.reg_lengthen_str_vec(
        String::from("-address"),
        deque(&["a", "b", "c"]),
        String::from("address"),
    );
    let out = flag.parse(&toks(&["prog", "-address", "x", "y", "z"]));
    assert!(matches!(out, ParseOutcome::Done));
    assert_eq!(flag.read_vector(&address).unwrap(), toks(&["x", "y", "z"]));
}

#[test]
fn open_vec_growth_not_visible_through_handle() {
    let mut flag = Flag::new();
    let address = flag.reg_lengthen_str_vec(
        String::from("-address"),
        deque(&["a", "b", "c"]),
        String::from("address"),
    );
    let out = flag.parse(&toks(&["prog", "-address", "w", "x", "y", "z"]));
    assert!(matches!(out, ParseOutcome::Done));
    // The reader feeds a fresh clone of the container: the fourth value goes
    // to a cell the original handle's container never learns about.
    assert_eq!(flag.read_vector(&address).unwrap(), toks(&["w", "x", "y"]));
}

#[test]
fn has_before_and_after_parse() {
    let mut flag = Flag::new();
    let _host = flag.reg_string(String::from("-h"), String::from("localhost"), String::from("host"));
    let _port = flag.reg_u32(String::from("-p"), 80, String::from("port"));
    assert!(!flag.has("-h"));
    assert!(!flag.has("-p"));
    assert!(!flag.has("-x"));
    let out = flag.parse(&toks(&["prog", "-h", "foo"]));
    assert!(matches!(out, ParseOutcome::Done));
    assert!(flag.has("-h"));
    assert!(!flag.has("-p"));
    assert!(!flag.has("-x"));
}

#[test]
fn reregister_shadows_first_handle() {
    let mut flag = Flag::new();
    let first = flag.reg_string(String::from("-h"), String::from("first"), String::from("one"));
    let second = flag.reg_string(String::from("-h"), String::from("second"), String::from("two"));
    assert_eq!(flag.read_string(&first).unwrap(), "first");
    assert_eq!(flag.read_string(&second).unwrap(), "second");
    let out = flag.parse(&toks(&["prog", "-h", "value"]));
    assert!(matches!(out, ParseOutcome::Done));
    // Only the second registration is connected to the canonical storage;
    // the first handle stays readable but no longer sees writes.
    assert_eq!(flag.read_string(&second).unwrap(), "value");
    assert_eq!(flag.read_string(&first).unwrap(), "first");
}

#[test]
fn help_sentinel_stops_parse() {
    let mut flag = Flag::new();
    let host = flag.reg_string(String::from("-h"), String::from("localhost"), String::from("host"));
    let out = flag.parse(&toks(&["prog", "--help", "-h", "foo"]));
    assert!(matches!(out, ParseOutcome::Help));
    assert_eq!(flag.read_string(&host).unwrap(), "localhost");
    assert!(!flag.has("-h"));
}

#[test]
fn set_help_changes_sentinel() {
    let mut flag = Flag::new();
    let _host = flag.reg_string(String::from("-h"), String::from("localhost"), String::from("host"));
    flag.set_help(String::from("-?"));
    assert!(matches!(flag.parse(&toks(&["prog", "-?"])), ParseOutcome::Help));
    assert!(matches!(flag.parse(&toks(&["prog", "--help"])), ParseOutcome::Done));
}

#[test]
fn help_text_rendering() {
    let mut flag = Flag::new();
    let _host = flag.reg_string(String::from("-h"), String::from("localhost"), String::from("host"));
    assert_eq!(flag.help_text(), "help:\n\t-h\n\t\tdefault: localhost\n\t\tdesc: host\n");
}

#[test]
fn help_text_renders_sequences_with_spaces() {
    let mut flag = Flag::new();
    let _packages = flag.reg_fixed_str_vec(
        String::from("-packages"),
        deque(&["libmath", "../third"]),
        String::from("packages"),
    );
    assert_eq!(
        flag.help_text(),
        "help:\n\t-packages\n\t\tdefault: libmath ../third \n\t\tdesc: packages\n"
    );
}

#[test]
fn unknown_tokens_silently_dropped() {
    let mut flag = Flag::new();
    let host = flag.reg_string(String::from("-h"), String::from("localhost"), String::from("host"));
    flag.set_warning();
    flag.set_nowarning();
    let out = flag.parse(&toks(&["prog", "stray", "-h", "foo", "extra"]));
    assert!(matches!(out, ParseOutcome::Done));
    assert_eq!(flag.read_string(&host).unwrap(), "foo");
}

#[test]
fn shape_mismatch_reads_fail() {
    let mut flag = Flag::new();
    let host = flag.reg_string(String::from("-h"), String::from("localhost"), String::from("host"));
    let address = flag.reg_lengthen_str_vec(
        String::from("-address"),
        deque(&["a"]),
        String::from("address"),
    );
    assert!(flag.valid_handle(&host));
    assert!(flag.valid_handle(&address));
    assert_eq!(flag.read_vector(&host), None);
    assert_eq!(flag.read_string(&address), None);
    assert_eq!(flag.read_u32(&address), None);
}
