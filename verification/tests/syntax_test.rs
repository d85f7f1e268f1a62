use garden::syntax::{
    is_exec, is_garden, is_graft, is_group, is_tree, split_string, trim, trim_exec,
};

#[test]
fn exec_expressions() {
    assert!(is_exec("$ pwd"));
    assert!(is_exec("$ "));
    assert!(!is_exec("$pwd"));
    assert!(!is_exec("$"));
    assert!(!is_exec(""));
    assert!(!is_exec(" $ pwd"));
    assert!(!is_exec("echo $ pwd"));
}

#[test]
fn garden_expressions() {
    assert!(is_garden(":garden"));
    assert!(is_garden(":"));
    assert!(is_garden("::"));
    assert!(!is_garden("garden"));
    assert!(!is_garden(""));
    assert!(!is_garden("a:b"));
}

#[test]
fn group_expressions() {
    assert!(is_group("%group"));
    assert!(is_group("%"));
    assert!(!is_group("group%"));
    assert!(!is_group(""));
}

#[test]
fn tree_expressions() {
    assert!(is_tree("@tree"));
    assert!(is_tree("@"));
    assert!(!is_tree("tree@"));
    assert!(!is_tree(""));
}

#[test]
fn prefixes_after_multibyte_characters() {
    assert!(!is_exec("é$ x"));
    assert!(!is_garden("é:"));
    assert!(is_tree("@é"));
    assert!(!is_group("ℤ%"));
}

#[test]
fn prefix_kinds_exclude_one_another() {
    for s in ["$ cmd", ":garden", "%group", "@tree", "plain", "", "$", "::graft"] {
        let kinds = [is_exec(s), is_garden(s), is_group(s), is_tree(s)];
        assert!(kinds.iter().filter(|k| **k).count() <= 1, "{}", s);
    }
}

#[test]
fn graft_expressions() {
    assert!(is_graft("graft::value"));
    assert!(is_graft("::"));
    assert!(is_graft("a:::b"));
    assert!(is_graft("value::"));
    assert!(!is_graft("graft:value"));
    assert!(!is_graft(":"));
    assert!(!is_graft(""));
    assert!(!is_graft(": :"));
    assert!(is_graft("é::ü"));
}

#[test]
fn trim_removes_first_character() {
    assert_eq!(trim(":garden"), "garden");
    assert_eq!(trim("%group"), "group");
    assert_eq!(trim("@tree"), "tree");
    assert_eq!(trim("@"), "");
    assert_eq!(trim("éa"), "a");
    assert_eq!(trim("€uro"), "uro");
    assert_eq!(trim("😀x"), "x");
}

#[test]
fn trim_restores_with_prefix() {
    for s in [":garden", "%group", "@tree", "@", ":é"] {
        let first = s.chars().next().unwrap();
        assert_eq!(format!("{}{}", first, trim(s)), s);
    }
}

#[test]
fn trim_exec_removes_two_characters() {
    assert_eq!(trim_exec("$ pwd"), "pwd");
    assert_eq!(trim_exec("$ "), "");
    assert_eq!(trim_exec("$ echo $ hi"), "echo $ hi");
    assert_eq!(trim_exec("éü rest"), " rest");
    assert_eq!(trim_exec("ab"), "");
}

#[test]
fn trim_exec_is_trim_twice() {
    for s in ["$ pwd", "$ ", "éüx", "😀😀😀"] {
        assert_eq!(trim_exec(s), trim(&trim(s)));
    }
}

#[test]
fn split_found() {
    assert_eq!(split_string("graft::value", "::"), (true, "graft", "value"));
    assert_eq!(split_string("a=b", "="), (true, "a", "b"));
}

#[test]
fn split_at_first_occurrence() {
    assert_eq!(split_string("a::b::c", "::"), (true, "a", "b::c"));
    assert_eq!(split_string("a:::b", "::"), (true, "a", ":b"));
}

#[test]
fn split_at_edges() {
    assert_eq!(split_string("::value", "::"), (true, "", "value"));
    assert_eq!(split_string("graft::", "::"), (true, "graft", ""));
    assert_eq!(split_string("::", "::"), (true, "", ""));
}

#[test]
fn split_not_found() {
    assert_eq!(split_string("graft:value", "::"), (false, "graft:value", ""));
    assert_eq!(split_string("abc", "d"), (false, "abc", ""));
    assert_eq!(split_string("ab", "ba"), (false, "ab", ""));
}

#[test]
fn split_whole_string() {
    assert_eq!(split_string("ab", "ab"), (true, "", ""));
}

#[test]
fn split_separator_longer_than_string() {
    assert_eq!(split_string(":", "::"), (false, ":", ""));
    assert_eq!(split_string("", "::"), (false, "", ""));
    assert_eq!(split_string("a", "abc"), (false, "a", ""));
    assert_eq!(split_string("abc", "éé"), (false, "abc", ""));
    assert_eq!(split_string("é", "abc"), (false, "é", ""));
}

#[test]
fn split_on_empty_separator() {
    assert_eq!(split_string("abc", ""), (true, "", "abc"));
    assert_eq!(split_string("", ""), (true, "", ""));
}

#[test]
fn split_multibyte() {
    assert_eq!(split_string("é::ü", "::"), (true, "é", "ü"));
    assert_eq!(split_string("aéb", "é"), (true, "a", "b"));
    assert_eq!(split_string("€€", "€"), (true, "", "€"));
    assert_eq!(split_string("aéb", "ü"), (false, "aéb", ""));
}

#[test]
fn split_rejoins() {
    for (s, p) in [("graft::value", "::"), ("a::b::c", "::"), ("none", "::"), ("é::ü", "::"), ("x", "")] {
        let (ok, before, after) = split_string(s, p);
        if ok {
            assert_eq!(format!("{}{}{}", before, p, after), s);
            assert!(!p.is_empty() || before.is_empty());
        } else {
            assert_eq!(format!("{}{}", before, after), s);
        }
        assert!(p.is_empty() || !before.contains(p));
    }
}

#[test]
fn graft_agrees_with_split() {
    for s in ["graft::value", "graft:value", "::", ": :", "a:::b", "é:", ":", ""] {
        assert_eq!(is_graft(s), split_string(s, "::").0);
    }
}
