use denver::{
    get_envf_path, get_from, lines_to_denvm, merge, merge_envs, merge_l, merge_r, resolve,
    set_froms, set_sets, split_line, to_denvm, tokenize, Dir, EnvMap,
};

fn pairs(ps: &[(&str, &str)]) -> Vec<(String, String)> {
    ps.iter().map(|(k, v)| (k.to_string(), v.to_string())).collect()
}

fn lines(ls: &[&str]) -> Vec<String> {
    ls.iter().map(|l| l.to_string()).collect()
}

fn get(m: &EnvMap, k: &str) -> Option<String> {
    m.get(&k.to_string()).cloned()
}

#[test]
fn test_to_devm() {
    let s = "a=b\nc=d";
    let it: Vec<(String, String)> = s
        .lines()
        .map(|s| s.to_owned())
        .map(|s| split_line(s))
        .filter_map(|x| x)
        .collect();
    let m = to_denvm(it);
    assert_eq!(m.get(&"a".to_string()), Some(&"b".to_string()));
    assert_eq!(m.get(&"c".to_string()), Some(&"d".to_string()));
}

#[test]
fn test_to_denvm_cmts() {
    let s = "a=b\n# comment\nc=d\nx=";
    let it: Vec<(String, String)> = s
        .lines()
        .map(|s| s.to_owned())
        .map(|s| split_line(s))
        .filter_map(|x| x)
        .collect();
    let m = to_denvm(it);
    assert_eq!(m.get(&"a".to_string()), Some(&"b".to_string()));
    assert_eq!(m.get(&"c".to_string()), Some(&"d".to_string()));
}

#[test]
fn test_merge() {
    let fst = to_denvm(pairs(&[("a", "a_fst"), ("b", "b_fst")]));
    let snd = to_denvm(pairs(&[("a", "a_snd")]));
    let m = merge(fst, snd);
    assert_eq!(m.get(&"a".to_string()), Some(&"a_snd".to_string()));
    assert_eq!(m.get(&"b".to_string()), Some(&"b_fst".to_string()));
}

#[test]
fn test_get_enf_path_none() {
    let p = get_envf_path(None);
    assert!(p.ends_with(".env"));
}

#[test]
fn test_get_envf_path_some() {
    let p = get_envf_path(Some("dev".to_string()));
    assert!(p.ends_with(".dev.env"));
    let p = get_envf_path(Some("DEV".to_string()));
    assert!(p.ends_with(".dev.env"));
}

#[test]
fn envf_path_lowercases_exactly() {
    assert_eq!(get_envf_path(None), ".env");
    assert_eq!(get_envf_path(Some("Dev".to_string())), ".dev.env");
    assert_eq!(get_envf_path(Some("PROD".to_string())), ".prod.env");
}

#[test]
fn split_line_skips_non_alphabetic_starts() {
    assert_eq!(split_line("".to_string()), None);
    assert_eq!(split_line("# comment".to_string()), None);
    assert_eq!(split_line("1x=2".to_string()), None);
    assert_eq!(split_line(" a=b".to_string()), None);
    assert_eq!(split_line("_a=b".to_string()), None);
}

#[test]
fn split_line_requires_equals_sign() {
    assert_eq!(split_line("abc".to_string()), None);
    assert_eq!(
        split_line("a=b".to_string()),
        Some(("a".to_string(), "b".to_string()))
    );
}

#[test]
fn split_line_splits_on_first_equals() {
    assert_eq!(
        split_line("a=b=c".to_string()),
        Some(("a".to_string(), "b=c".to_string()))
    );
    assert_eq!(
        split_line("x=".to_string()),
        Some(("x".to_string(), "".to_string()))
    );
}

#[test]
fn split_line_strips_one_quote_layer() {
    assert_eq!(
        split_line("k='v'".to_string()),
        Some(("k".to_string(), "v".to_string()))
    );
    assert_eq!(
        split_line("k=\"v\"".to_string()),
        Some(("k".to_string(), "v".to_string()))
    );
    // mismatched edges are stripped too, one character each
    assert_eq!(
        split_line("k='v\"".to_string()),
        Some(("k".to_string(), "v".to_string()))
    );
    // only one layer comes off
    assert_eq!(
        split_line("k=\"\"v\"\"".to_string()),
        Some(("k".to_string(), "\"v\"".to_string()))
    );
}

#[test]
fn merge_into_itself_is_identity() {
    let m = to_denvm(pairs(&[("a", "1"), ("b", "2")]));
    let left = merge_l(m.duplicate(), m.duplicate());
    let right = merge_r(m.duplicate(), m.duplicate());
    for k in ["a", "b"] {
        assert_eq!(get(&left, k), get(&m, k));
        assert_eq!(get(&right, k), get(&m, k));
    }
}

#[test]
fn merge_direction_decides_collisions() {
    let acc = to_denvm(pairs(&[("k", "acc"), ("only_acc", "1")]));
    let src = to_denvm(pairs(&[("k", "src"), ("only_src", "2")]));
    let r = merge_r(acc.duplicate(), src.duplicate());
    assert_eq!(get(&r, "k"), Some("src".to_string()));
    assert_eq!(get(&r, "only_acc"), Some("1".to_string()));
    assert_eq!(get(&r, "only_src"), Some("2".to_string()));
    let l = merge_l(acc, src);
    assert_eq!(get(&l, "k"), Some("acc".to_string()));
    assert_eq!(get(&l, "only_acc"), Some("1".to_string()));
    assert_eq!(get(&l, "only_src"), Some("2".to_string()));
}

#[test]
fn last_line_wins_within_a_file() {
    let m = lines_to_denvm(lines(&["A=1", "A=2", "# note", "B=3"]));
    assert_eq!(get(&m, "A"), Some("2".to_string()));
    assert_eq!(get(&m, "B"), Some("3".to_string()));
}

#[test]
fn resolved_right_takes_later_layers() {
    // process env {PATH: /bin}; default .env holds A=1; .dev.env holds A=2
    let vars = to_denvm(pairs(&[("PATH", "/bin")]));
    let layers = vec![lines_to_denvm(lines(&["A=1"])), lines_to_denvm(lines(&["A=2"]))];
    let m = resolve(vars, layers, Dir::R, Vec::new(), Vec::new());
    assert_eq!(get(&m, "A"), Some("2".to_string()));
    assert_eq!(get(&m, "PATH"), Some("/bin".to_string()));
}

#[test]
fn resolved_left_keeps_earlier_layers() {
    let vars = to_denvm(pairs(&[("PATH", "/bin")]));
    let layers = vec![lines_to_denvm(lines(&["A=1"])), lines_to_denvm(lines(&["A=2"]))];
    let m = resolve(vars, layers, Dir::L, Vec::new(), Vec::new());
    assert_eq!(get(&m, "A"), Some("1".to_string()));
    assert_eq!(get(&m, "PATH"), Some("/bin".to_string()));
}

#[test]
fn left_preserves_process_variables_on_first_fold() {
    let vars = to_denvm(pairs(&[("A", "0")]));
    let layers = vec![lines_to_denvm(lines(&["A=1"]))];
    let l = merge_envs(vars.duplicate(), layers, Dir::L);
    assert_eq!(get(&l, "A"), Some("0".to_string()));
    let layers = vec![lines_to_denvm(lines(&["A=1"]))];
    let r = merge_envs(vars, layers, Dir::R);
    assert_eq!(get(&r, "A"), Some("1".to_string()));
}

#[test]
fn literal_override_wins_regardless_of_direction() {
    // -s B="hello": quotes stripped, and it overwrites any B from files
    let sets = vec![split_line("B=\"hello\"".to_string())];
    let vars = to_denvm(pairs(&[("B", "from_env")]));
    let layers = vec![lines_to_denvm(lines(&["B=from_file"]))];
    let m = resolve(vars, layers, Dir::L, Vec::new(), sets.clone());
    assert_eq!(get(&m, "B"), Some("hello".to_string()));
    let vars = to_denvm(pairs(&[("B", "from_env")]));
    let layers = vec![lines_to_denvm(lines(&["B=from_file"]))];
    let m = resolve(vars, layers, Dir::R, Vec::new(), sets);
    assert_eq!(get(&m, "B"), Some("hello".to_string()));
}

#[test]
fn from_directive_overwrites_on_hit_and_skips_on_miss() {
    let source = lines_to_denvm(lines(&["K=from_source"]));
    let hit = get_from(&source, "K".to_string());
    assert_eq!(hit, Some(("K".to_string(), "from_source".to_string())));
    let miss = get_from(&source, "Z".to_string());
    assert_eq!(miss, None);

    let mut acc = to_denvm(pairs(&[("K", "old"), ("Z", "kept")]));
    set_froms(vec![hit, miss], &mut acc);
    assert_eq!(get(&acc, "K"), Some("from_source".to_string()));
    assert_eq!(get(&acc, "Z"), Some("kept".to_string()));
}

#[test]
fn set_overwrites_unconditionally() {
    let mut m = to_denvm(pairs(&[("a", "1")]));
    denver::envmap::set(&mut m, "a".to_string(), "2".to_string());
    denver::envmap::set(&mut m, "b".to_string(), "3".to_string());
    assert_eq!(get(&m, "a"), Some("2".to_string()));
    assert_eq!(get(&m, "b"), Some("3".to_string()));
}

#[test]
fn set_sets_applies_in_order() {
    let mut m = to_denvm(pairs(&[]));
    set_sets(
        vec![
            split_line("A=1".to_string()),
            None,
            split_line("A=2".to_string()),
        ],
        &mut m,
    );
    assert_eq!(get(&m, "A"), Some("2".to_string()));
}

#[test]
fn to_denvm_last_pair_wins() {
    let m = to_denvm(pairs(&[("a", "1"), ("a", "2")]));
    assert_eq!(get(&m, "a"), Some("2".to_string()));
}

#[test]
fn entries_holds_one_pair_per_key() {
    let m = to_denvm(pairs(&[("a", "1"), ("b", "2"), ("a", "3")]));
    let mut es = m.entries();
    es.sort();
    assert_eq!(es, pairs(&[("a", "3"), ("b", "2")]));
}

#[test]
fn entries_round_trip() {
    let m = to_denvm(pairs(&[("a", "1"), ("b", "2")]));
    let back = to_denvm(m.entries());
    assert_eq!(get(&back, "a"), get(&m, "a"));
    assert_eq!(get(&back, "b"), get(&m, "b"));
    assert_eq!(get(&back, "c"), None);
}

#[test]
fn command_tokens_are_split_on_whitespace_only() {
    // no variable expansion, no shell quoting
    assert_eq!(tokenize("echo $A"), vec!["echo".to_string(), "$A".to_string()]);
    assert_eq!(
        tokenize("  ls  -l   /tmp "),
        vec!["ls".to_string(), "-l".to_string(), "/tmp".to_string()]
    );
    assert_eq!(tokenize(""), Vec::<String>::new());
    assert_eq!(tokenize("   "), Vec::<String>::new());
    assert_eq!(
        tokenize("echo 'a b'"),
        vec!["echo".to_string(), "'a".to_string(), "b'".to_string()]
    );
}
