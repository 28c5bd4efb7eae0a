use jev_quantum::config::{
    require_positive, secret_setting, setting_or, BenchConfig, ConfigOverrides, RawSettings, TargetKind,
};
use jev_quantum::target::Target;

fn config(key: Option<&str>) -> BenchConfig {
    BenchConfig {
        local_base_url: "http://127.0.0.1:3000//".to_string(),
        local_model: "jev-quantum-latest".to_string(),
        gateway_base_url: "https://api.typesafe.ai".to_string(),
        gateway_model: "jev-latest".to_string(),
        gateway_api_key: key.map(|k| k.to_string()),
        report_output_dir: "reports".to_string(),
    }
}

#[test]
fn target_lists_parse() {
    assert_eq!(
        TargetKind::parse_list(" Local, ,gateway,FLOOD-FILL,jev-memory,jev-flood-fill,"),
        Ok(vec![
            TargetKind::Local,
            TargetKind::Jev,
            TargetKind::FloodFill,
            TargetKind::JevMemory,
            TargetKind::JevFloodFill
        ])
    );
    assert_eq!(TargetKind::parse_list("remote"), Ok(vec![TargetKind::Jev]));
}

#[test]
fn target_list_errors() {
    assert_eq!(
        TargetKind::parse_list("local,Nope,alsobad"),
        Err("unknown target 'nope' (use local,jev,flood-fill,memory-rules,jev-memory,jev-flood-fill,jev-memory-v1-long,jev-memory-v1-free,jev-memory-no-distance)".to_string())
    );
    assert_eq!(
        TargetKind::parse_list(" , "),
        Err("at least one target is required".to_string())
    );
    assert_eq!(TargetKind::JevFloodFill.as_str(), "jev-flood-fill");
}

#[test]
fn positive_values_are_required() {
    assert_eq!(require_positive("width", 3), Ok(()));
    assert_eq!(require_positive("width", 0), Err("width must be > 0".to_string()));
}

#[test]
fn description_never_shows_the_key() {
    let with_key = config(Some("abc123"));
    assert_eq!(
        with_key.describe(),
        "local=http://127.0.0.1:3000// model=jev-quantum-latest | gateway=https://api.typesafe.ai model=jev-latest key=configured"
    );
    assert!(config(None).describe().ends_with("key=missing"));
}

#[test]
fn targets_come_from_the_config() {
    let local = Target::from_config(TargetKind::Local, &config(None)).unwrap();
    assert_eq!(local.endpoint, "http://127.0.0.1:3000/v1/systemone");
    assert_eq!(local.name, "local");
    assert!(!local.paced);
    let solver = Target::from_config(TargetKind::FloodFill, &config(None)).unwrap();
    assert_eq!(solver.endpoint, "in-process");
    assert_eq!(solver.model, "online-flood-fill");
    assert!(Target::from_config(TargetKind::Jev, &config(None)).is_none());
    let remote = Target::from_config(TargetKind::JevMemory, &config(Some("k"))).unwrap();
    assert_eq!(remote.endpoint, "https://api.typesafe.ai/v1/systemone");
    assert_eq!(remote.api_key, Some("k".to_string()));
    assert!(remote.paced);
    assert_eq!(remote.name, "jev-memory");
}

fn unset() -> RawSettings {
    RawSettings {
        local_base_url: None,
        local_model: None,
        gateway_base_url: None,
        gateway_model: None,
        gateway_api_key: None,
        report_output_dir: None,
    }
}

#[test]
fn unset_and_blank_settings_take_their_defaults() {
    let c = BenchConfig::from_settings(unset());
    assert_eq!(c.local_base_url, "http://127.0.0.1:3000");
    assert_eq!(c.local_model, "jev-quantum-latest");
    assert_eq!(c.gateway_base_url, "https://api.typesafe.ai");
    assert_eq!(c.gateway_model, "jev-latest");
    assert_eq!(c.gateway_api_key, None);
    assert_eq!(c.report_output_dir, "reports");
    let mut raw = unset();
    raw.local_model = Some("   ".to_string());
    raw.gateway_api_key = Some(" \t ".to_string());
    let c = BenchConfig::from_settings(raw);
    assert_eq!(c.local_model, "jev-quantum-latest");
    assert_eq!(c.gateway_api_key, None);
}

#[test]
fn settings_are_trimmed() {
    let mut raw = unset();
    raw.gateway_model = Some("  jev-9 \n".to_string());
    raw.gateway_api_key = Some(" abc123 ".to_string());
    let c = BenchConfig::from_settings(raw);
    assert_eq!(c.gateway_model, "jev-9");
    assert_eq!(c.gateway_api_key.as_deref(), Some("abc123"));
    assert!(c.describe().ends_with("key=configured"));
    assert_eq!(setting_or(Some(" a ".to_string()), "d"), "a");
    assert_eq!(secret_setting(None), None);
}

#[test]
fn command_line_overrides_win_and_keep_the_key() {
    let mut raw = unset();
    raw.gateway_api_key = Some("k".to_string());
    let mut c = BenchConfig::from_settings(raw);
    c.apply_overrides(&ConfigOverrides {
        local_base_url: Some("http://10.0.0.2:9000".to_string()),
        local_model: None,
        gateway_base_url: None,
        gateway_model: Some("jev-next".to_string()),
        output: Some("out/runs".to_string()),
    });
    assert_eq!(c.local_base_url, "http://10.0.0.2:9000");
    assert_eq!(c.local_model, "jev-quantum-latest");
    assert_eq!(c.gateway_base_url, "https://api.typesafe.ai");
    assert_eq!(c.gateway_model, "jev-next");
    assert_eq!(c.report_output_dir, "out/runs");
    assert_eq!(c.gateway_api_key.as_deref(), Some("k"));
}

#[test]
fn documented_maze_targets_are_accepted() {
    assert_eq!(
        TargetKind::parse_list("memory-rules,jev-memory-v1-long, JEV-MEMORY-V1-FREE ,jev-memory-no-distance"),
        Ok(vec![
            TargetKind::MemoryRules,
            TargetKind::JevMemoryLong,
            TargetKind::JevMemoryFree,
            TargetKind::JevMemoryNoDistance
        ])
    );
    assert_eq!(TargetKind::MemoryRules.as_str(), "memory-rules");
    assert_eq!(TargetKind::JevMemoryNoDistance.as_str(), "jev-memory-no-distance");
    let rules = Target::from_config(TargetKind::MemoryRules, &config(None)).unwrap();
    assert_eq!((rules.endpoint.as_str(), rules.model.as_str(), rules.paced), ("in-process", "spatial-v2-rules", false));
    assert!(Target::from_config(TargetKind::JevMemoryLong, &config(None)).is_none());
    let long = Target::from_config(TargetKind::JevMemoryFree, &config(Some("k"))).unwrap();
    assert_eq!(long.name, "jev-memory-v1-free");
    assert!(long.paced);
}
