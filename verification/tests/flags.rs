use hifisampler::cache::{
    feature_cache_name, load_plan, lock_step, save_plan, separation_cache_name, LoadPlan, LockStep,
    SavePlan, FEATURE_EXT, LOCK_TIMEOUT_MS,
};
use hifisampler::config::{count_setting, switch_setting, RenderSettings};
use hifisampler::flags::{flag_index, flag_parser, flags_from_groups, Flag};

fn value_of(flags: &Vec<Flag>, name: &str) -> Option<Option<f64>> {
    flag_index(flags, name).map(|i| flags[i].value.as_ref().and_then(|v| v.parse::<f64>().ok()))
}

#[test]
fn test_parse_empty() {
    let flags = flag_parser("").unwrap();
    assert!(flags.is_empty());
}

#[test]
fn test_parse_with_values() {
    let flags = flag_parser("B50Hv70fl0.5G").unwrap();
    assert_eq!(value_of(&flags, "B"), Some(Some(50.0)));
    assert_eq!(value_of(&flags, "Hv"), Some(Some(70.0)));
    assert_eq!(value_of(&flags, "fl"), Some(Some(0.5)));
    assert_eq!(value_of(&flags, "G"), Some(None));
}

#[test]
fn test_parse_flag_without_value() {
    let flags = flag_parser("GHeMe").unwrap();
    assert_eq!(value_of(&flags, "G"), Some(None));
    assert_eq!(value_of(&flags, "He"), Some(None));
    assert_eq!(value_of(&flags, "Me"), None);
    assert_eq!(flags.len(), 2);
}

#[test]
fn flags_keep_their_order_and_texts() {
    let flags = flag_parser("g-10t+5.25HG30").unwrap();
    let names: Vec<&str> = flags.iter().map(|f| f.name.as_str()).collect();
    assert_eq!(names, vec!["g", "t", "HG"]);
    assert_eq!(flags[0].value.as_deref(), Some("-10"));
    assert_eq!(flags[1].value.as_deref(), Some("+5.25"));
    assert_eq!(flags[2].value.as_deref(), Some("30"));
}

#[test]
fn flags_drop_slashes_before_matching() {
    let flags = flag_parser("/H/v7/0/").unwrap();
    assert_eq!(flags.len(), 1);
    assert_eq!(flags[0].name, "Hv");
    assert_eq!(flags[0].value.as_deref(), Some("70"));
}

#[test]
fn flags_last_one_counts() {
    let flags = flag_parser("B10B20").unwrap();
    assert_eq!(flags.len(), 2);
    assert_eq!(flag_index(&flags, "B"), Some(1));
    assert_eq!(value_of(&flags, "B"), Some(Some(20.0)));
    assert_eq!(flag_index(&flags, "A"), None);
}

#[test]
fn flags_from_groups_skips_matches_without_a_name() {
    let groups = vec![
        (Some("B".to_string()), Some("5".to_string())),
        (None, Some("7".to_string())),
        (Some("G".to_string()), None),
    ];
    let flags = flags_from_groups(groups);
    assert_eq!(
        flags,
        vec![
            Flag { name: "B".to_string(), value: Some("5".to_string()) },
            Flag { name: "G".to_string(), value: None },
        ]
    );
}

#[test]
fn cache_names() {
    assert_eq!(FEATURE_EXT, "hifi.npz");
    assert_eq!(
        feature_cache_name("a", "100", "0", "100", "0"),
        "a_Hb100_Ht0_Hv100_g0hifi.npz"
    );
    assert_eq!(
        feature_cache_name("voice", "50", "-20", "70.5", "3"),
        "voice_Hb50_Ht-20_Hv70.5_g3hifi.npz"
    );
    assert_eq!(separation_cache_name("voice"), "voice_hnsep");
}

#[test]
fn settings_defaults_and_texts() {
    let d = RenderSettings::default();
    assert!(d.wave_norm && d.trim_silence && d.loop_mode);
    assert_eq!(d.fill, 6);
    assert_eq!(d.max_workers, 2);
    assert_eq!(switch_setting(Some("false"), true), false);
    assert_eq!(switch_setting(Some("true"), false), true);
    assert_eq!(switch_setting(Some("True"), false), false);
    assert_eq!(switch_setting(Some("yes"), true), true);
    assert_eq!(switch_setting(None, true), true);
    assert_eq!(count_setting(Some("8"), 6), 8);
    assert_eq!(count_setting(Some("+8"), 6), 8);
    assert_eq!(count_setting(Some("-8"), 6), 6);
    assert_eq!(count_setting(Some("8.5"), 6), 6);
    assert_eq!(count_setting(Some(""), 6), 6);
    assert_eq!(count_setting(None, 6), 6);
}

#[test]
fn cache_plans() {
    assert_eq!(load_plan(false, true), LoadPlan::Read);
    assert_eq!(load_plan(true, true), LoadPlan::Miss);
    assert_eq!(load_plan(false, false), LoadPlan::Miss);
    assert_eq!(save_plan(true, false, true), SavePlan::Reuse);
    assert_eq!(save_plan(true, true, false), SavePlan::Reuse);
    assert_eq!(save_plan(false, true, false), SavePlan::RejectEmpty);
    assert_eq!(save_plan(false, false, true), SavePlan::Write { clear_staging: true });
    assert_eq!(save_plan(false, false, false), SavePlan::Write { clear_staging: false });
    assert_eq!(lock_step(true, 9000, LOCK_TIMEOUT_MS), LockStep::Acquired);
    assert_eq!(lock_step(false, 4999, LOCK_TIMEOUT_MS), LockStep::Retry);
    assert_eq!(lock_step(false, 5000, LOCK_TIMEOUT_MS), LockStep::TimedOut);
}
