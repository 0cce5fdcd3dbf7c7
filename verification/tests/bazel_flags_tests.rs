use bazelrc::bazel_flags::{BazelFlags, FlagInfo};

fn flag(name: &str, abbreviation: Option<&str>, commands: &[&str]) -> FlagInfo {
    FlagInfo {
        name: name.to_string(),
        has_negative_flag: None,
        documentation: None,
        commands: commands.iter().map(|c| c.to_string()).collect(),
        abbreviation: abbreviation.map(|a| a.to_string()),
        allows_multiple: None,
        effect_tags: vec![],
        metadata_tags: vec![],
        documentation_category: None,
    }
}

fn sample_flags() -> BazelFlags {
    BazelFlags::from_flags(vec![
        flag("preemptible", None, &["startup"]),
        flag("keep_going", Some("k"), &["build", "test"]),
        flag("expunge", None, &["clean"]),
        flag("jobs", Some("j"), &["build", "test", "build"]),
    ])
}

#[test]
fn test_flags() {
    let flags = sample_flags();
    assert!(flags.flags_by_commands.contains_key("build"));
    assert!(flags.flags_by_commands.contains_key("clean"));
    assert!(flags.flags_by_commands.contains_key("test"));

    // Can lookup a flag by its invocation
    let preemptible_info = flags.get_by_invocation("--preemptible");
    assert_eq!(
        preemptible_info
            .unwrap()
            .commands
            .iter()
            .map(|n| n.to_string())
            .collect::<Vec<_>>(),
        vec!("startup")
    );

    // Supports both short and long forms
    assert_eq!(
        flags.get_by_invocation("-k"),
        flags.get_by_invocation("--keep_going")
    );
    assert!(flags.get_by_invocation("-k").is_some());
}

#[test]
fn indices_by_command_follow_the_flags() {
    let flags = sample_flags();
    assert_eq!(flags.flags.len(), 4);
    assert_eq!(flags.flags_by_commands.get("startup"), Some(&vec![0]));
    assert_eq!(flags.flags_by_commands.get("build"), Some(&vec![1, 3, 3]));
    assert_eq!(flags.flags_by_commands.get("test"), Some(&vec![1, 3]));
    assert_eq!(flags.flags_by_commands.get("clean"), Some(&vec![2]));
    assert_eq!(flags.flags_by_commands.get("run"), None);
    assert_eq!(flags.flags_by_commands.len(), 4);
}

#[test]
fn indices_by_name_and_abbreviation() {
    let flags = sample_flags();
    assert_eq!(flags.flags_by_name.get("preemptible"), Some(&0));
    assert_eq!(flags.flags_by_name.get("jobs"), Some(&3));
    assert_eq!(flags.flags_by_name.len(), 4);
    assert_eq!(flags.flags_by_abbreviation.get("k"), Some(&1));
    assert_eq!(flags.flags_by_abbreviation.get("j"), Some(&3));
    assert_eq!(flags.flags_by_abbreviation.len(), 2);
}

#[test]
fn the_last_flag_of_a_name_wins() {
    let flags = BazelFlags::from_flags(vec![
        flag("x", Some("a"), &["build"]),
        flag("y", Some("a"), &[]),
        flag("x", None, &["test"]),
    ]);
    assert_eq!(flags.flags_by_name.get("x"), Some(&2));
    assert_eq!(flags.flags_by_abbreviation.get("a"), Some(&1));
    assert_eq!(flags.get_by_invocation("--x").unwrap().commands, vec!["test"]);
    assert_eq!(flags.get_by_invocation("-a").unwrap().name, "y");
}

#[test]
fn no_flags_no_indices() {
    let flags = BazelFlags::from_flags(vec![]);
    assert!(flags.flags.is_empty());
    assert!(flags.flags_by_name.is_empty());
    assert!(flags.flags_by_abbreviation.is_empty());
    assert!(flags.flags_by_commands.is_empty());
    assert_eq!(flags.get_by_invocation("--x"), None);
}

#[test]
fn invocations() {
    let flags = sample_flags();
    let jobs = Some(&flags.flags[3]);
    assert_eq!(flags.get_by_invocation("--jobs"), jobs);
    assert_eq!(flags.get_by_invocation("--jobs="), jobs);
    assert_eq!(flags.get_by_invocation("-j"), jobs);
    assert_eq!(flags.get_by_invocation("-j="), jobs);
    // Only one `=` is taken off.
    assert_eq!(flags.get_by_invocation("--jobs=="), None);
    // A name is not an abbreviation and the other way round.
    assert_eq!(flags.get_by_invocation("-jobs"), None);
    assert_eq!(flags.get_by_invocation("--j"), None);
    // Without a dash, or with three, nothing is found.
    assert_eq!(flags.get_by_invocation("jobs"), None);
    assert_eq!(flags.get_by_invocation("---jobs"), None);
    assert_eq!(flags.get_by_invocation(""), None);
    assert_eq!(flags.get_by_invocation("="), None);
    assert_eq!(flags.get_by_invocation("-"), None);
    assert_eq!(flags.get_by_invocation("--"), None);
    assert_eq!(flags.get_by_invocation("--="), None);
    assert_eq!(flags.get_by_invocation("--unknown"), None);
}

#[test]
fn invocation_with_wide_characters() {
    let flags = BazelFlags::from_flags(vec![flag("größe", Some("ß"), &[])]);
    assert_eq!(flags.get_by_invocation("--größe=").unwrap().name, "größe");
    assert_eq!(flags.get_by_invocation("-ß").unwrap().name, "größe");
}

#[test]
fn has_negative_flag_defaults_to_false() {
    let mut f = flag("x", None, &[]);
    assert!(!f.has_negative_flag());
    f.has_negative_flag = Some(false);
    assert!(!f.has_negative_flag());
    f.has_negative_flag = Some(true);
    assert!(f.has_negative_flag());
}

#[test]
fn documentation_of_a_bare_flag() {
    assert_eq!(flag("jobs", None, &["build"]).get_documentation_markdown(), "`--jobs`\n\n");
}

#[test]
fn documentation_with_everything() {
    let f = FlagInfo {
        name: "keep_going".to_string(),
        has_negative_flag: Some(true),
        documentation: Some("Continue as much as possible.".to_string()),
        commands: vec!["build".to_string()],
        abbreviation: Some("k".to_string()),
        allows_multiple: Some(false),
        effect_tags: vec!["EAGERNESS_TO_EXIT".to_string(), "Unknown".to_string()],
        metadata_tags: vec!["HIDDEN".to_string()],
        documentation_category: Some("EXECUTION_STRATEGY".to_string()),
    };
    assert_eq!(
        f.get_documentation_markdown(),
        "`--keep_going` [`-k`], `--nokeep_going`\n\nContinue as much as possible.\n\n\
         Effect tags: eagerness_to_exit, unknown\\\nTags: hidden\\\nCategory: execution_strategy\n"
    );
}

#[test]
fn documentation_parts_are_independent() {
    let mut f = flag("x", Some("y"), &[]);
    assert_eq!(f.get_documentation_markdown(), "`--x` [`-y`]\n\n");
    f.abbreviation = None;
    f.has_negative_flag = Some(true);
    assert_eq!(f.get_documentation_markdown(), "`--x`, `--nox`\n\n");
    f.has_negative_flag = None;
    f.metadata_tags = vec!["A".to_string(), "b".to_string(), "C".to_string()];
    assert_eq!(f.get_documentation_markdown(), "`--x`\n\n\n\nTags: a, b, c\\\n".replacen("\n\n", "", 1));
    f.metadata_tags = vec![];
    f.documentation_category = Some("Cat".to_string());
    assert_eq!(f.get_documentation_markdown(), "`--x`\n\nCategory: cat\n");
    f.documentation_category = None;
    f.documentation = Some("Doc".to_string());
    assert_eq!(f.get_documentation_markdown(), "`--x`\n\nDoc\n\n");
}

#[test]
fn render_markdown_writes_tags_as_given() {
    let f = flag("x", None, &[]);
    assert_eq!(
        f.render_markdown(&vec!["A".to_string(), "B".to_string()], &vec![], &Some("C".to_string())),
        "`--x`\n\nEffect tags: A, B\\\nCategory: C\n"
    );
    assert_eq!(f.render_markdown(&vec![], &vec!["T".to_string()], &None), "`--x`\n\nTags: T\\\n");
}
