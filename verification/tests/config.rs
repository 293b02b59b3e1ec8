use hadron::config::Config;

fn pairs(c: &Config) -> Vec<(String, String)> {
    c.entries()
}

#[test]
fn empty_config_has_no_entries() {
    let c = Config::empty("/tmp/x.cfg".to_string());
    assert_eq!(c.len(), 0);
    assert_eq!(c.path(), "/tmp/x.cfg");
}

#[test]
fn add_keeps_names_sorted_and_replaces() {
    let mut c = Config::empty(String::new());
    c.add("zeta", "/z");
    c.add("alpha", "/a");
    c.add("Mid", "/m");
    c.add("alpha", "/a2");
    assert_eq!(
        pairs(&c),
        vec![
            ("Mid".to_string(), "/m".to_string()),
            ("alpha".to_string(), "/a2".to_string()),
            ("zeta".to_string(), "/z".to_string()),
        ]
    );
}

#[test]
fn order_is_by_code_point() {
    let mut c = Config::empty(String::new());
    c.add("é", "1");
    c.add("z", "2");
    c.add("ab", "3");
    c.add("a", "4");
    let names: Vec<String> = pairs(&c).into_iter().map(|(k, _)| k).collect();
    assert_eq!(names, vec!["a", "ab", "z", "é"]);
}

#[test]
fn remove_takes_out_named_entries() {
    let mut c = Config::empty(String::new());
    c.add("a", "1");
    c.add("b", "2");
    c.add("c", "3");
    c.remove(&["b".to_string(), "missing".to_string(), "a".to_string()]);
    assert_eq!(pairs(&c), vec![("c".to_string(), "3".to_string())]);
}

fn parsed(text: &str) -> Vec<(String, String)> {
    pairs(&Config::parse(String::new(), text))
}

fn kv(k: &str, v: &str) -> (String, String) {
    (k.to_string(), v.to_string())
}

#[test]
fn parses_name_value_lines() {
    let text = "# special paths\n\n  Games = /data/games  \r\nbroken line\n=nokey\nSaves=/x=y\n#skip=1\nGames=/other\n";
    let c = Config::parse("/cfg".to_string(), text);
    assert_eq!(pairs(&c), vec![kv("Games", "/other"), kv("Saves", "/x=y")]);
    assert_eq!(c.path(), "/cfg");
    assert_eq!(parsed("a b=c\n"), vec![kv("a b", "c")]);
    assert_eq!(parsed("  Games = /data/games  \n"), vec![kv("Games", "/data/games")]);
    assert_eq!(parsed("a:b\nc d\n! x=y\n"), vec![kv("! x", "y")]);
}

#[test]
fn resolves_escapes_in_names() {
    assert_eq!(parsed("My\\ Games=/Users/me/Games\n"), vec![kv("My Games", "/Users/me/Games")]);
    assert_eq!(parsed("a\\:b\\\\c\\u00e9=1\n"), vec![kv("a:b\\c\u{e9}", "1")]);
    assert_eq!(parsed("bad\\u12G=1\n"), vec![kv("bad\\u12G", "1")]);
    assert_eq!(parsed("Games=C:\\Users\\me\n"), vec![kv("Games", "C:\\Users\\me")]);
    assert_eq!(parsed("\\=x\n"), vec![]);
}

#[test]
fn writes_one_line_per_entry() {
    let mut c = Config::empty(String::new());
    c.add("b", "/2");
    c.add("a", "/1");
    assert_eq!(c.to_text(), "a=/1\nb=/2\n");
    assert_eq!(Config::empty(String::new()).to_text(), "");
}

#[test]
fn writes_lines_as_they_are() {
    let mut c = Config::empty(String::new());
    c.add("Games", "C:x");
    c.add("My Games", "C:\\Users\\me");
    assert_eq!(c.to_text(), "Games=C:x\nMy Games=C:\\Users\\me\n");
}

#[test]
fn text_roundtrip() {
    let mut c = Config::empty(String::new());
    c.add("Games", "/data/games");
    c.add("Empty", "");
    c.add("Unicode ★", "C:\\Users\\me");
    c.add("Colon: #!", "a=b  c");
    let back = Config::parse(String::new(), &c.to_text());
    assert_eq!(pairs(&back), pairs(&c));
}

#[test]
fn default_config_paths() {
    let s = |x: &str| Some(x.to_string());
    assert_eq!(
        hadron::config::config_path_from(false, None, None, s("/xdg"), s("/home/me")),
        "/xdg/hadron/hadron-config.cfg"
    );
    assert_eq!(
        hadron::config::config_path_from(false, None, None, s("  "), s("/home/me")),
        "/home/me/.config/hadron/hadron-config.cfg"
    );
    assert_eq!(
        hadron::config::config_path_from(false, None, None, None, None),
        "./.config/hadron/hadron-config.cfg"
    );
    assert_eq!(
        hadron::config::config_path_from(false, None, None, s("/xdg/"), None),
        "/xdg/hadron/hadron-config.cfg"
    );
    assert_eq!(
        hadron::config::config_path_from(true, s("C:\\Users\\me\\AppData\\Roaming"), s("C:\\Users\\me"), None, None),
        "C:\\Users\\me\\AppData\\Roaming\\hadron\\hadron-config.cfg"
    );
    assert_eq!(
        hadron::config::config_path_from(true, None, s("C:\\Users\\me"), None, None),
        "C:\\Users\\me\\hadron\\hadron-config.cfg"
    );
    assert_eq!(
        hadron::config::config_path_from(true, s("D:"), None, None, None),
        "D:hadron\\hadron-config.cfg"
    );
}
