use nshell::environment::{config_steps, entry_steps, leave_steps, EnvStep};
use nshell::table::Table;

fn table(entries: &[(&str, &str)]) -> Table<String> {
    let mut t = Table::new();
    for (key, value) in entries {
        t.insert(key.to_string(), value.to_string());
    }
    t
}

#[test]
fn entering_a_room_saves_then_sets_each_variable() {
    let room = table(&[("PYTHONPATH", "./src"), ("MODE", "dev")]);
    assert_eq!(
        entry_steps(&room),
        vec![
            EnvStep::Save("PYTHONPATH".to_string()),
            EnvStep::Assign("PYTHONPATH".to_string(), "./src".to_string()),
            EnvStep::Save("MODE".to_string()),
            EnvStep::Assign("MODE".to_string(), "dev".to_string()),
        ]
    );
    assert_eq!(
        leave_steps(&room),
        vec![EnvStep::Restore("PYTHONPATH".to_string()), EnvStep::Restore("MODE".to_string())]
    );
}

#[test]
fn a_new_configuration_puts_back_what_it_no_longer_sets() {
    let previous = table(&[("A", "1"), ("B", "2")]);
    let next = table(&[("B", "3"), ("C", "4")]);
    assert_eq!(
        config_steps(&previous, &next),
        vec![
            EnvStep::Restore("A".to_string()),
            EnvStep::Save("B".to_string()),
            EnvStep::Assign("B".to_string(), "3".to_string()),
            EnvStep::Save("C".to_string()),
            EnvStep::Assign("C".to_string(), "4".to_string()),
        ]
    );
    assert!(config_steps(&Table::new(), &Table::new()).is_empty());
}

fn perform(
    steps: Vec<EnvStep>,
    env: &mut std::collections::HashMap<String, String>,
    saved: &mut std::collections::HashMap<String, Option<String>>,
) {
    for step in steps {
        match step {
            EnvStep::Save(key) => {
                let current = env.get(&key).cloned();
                saved.entry(key).or_insert(current);
            }
            EnvStep::Assign(key, value) => {
                env.insert(key, value);
            }
            EnvStep::Restore(key) => match saved.get(&key) {
                Some(Some(value)) => {
                    env.insert(key, value.clone());
                }
                Some(None) => {
                    env.remove(&key);
                }
                None => {}
            },
        }
    }
}

#[test]
fn room_values_win_over_configured_over_inherited_ones() {
    let mut env = std::collections::HashMap::new();
    env.insert("EDITOR".to_string(), "vi".to_string());
    env.insert("SHELL".to_string(), "sh".to_string());
    let mut inherited = std::collections::HashMap::new();
    let config = table(&[("EDITOR", "nano"), ("PAGER", "less")]);
    perform(config_steps(&Table::new(), &config), &mut env, &mut inherited);
    let configured = env.clone();
    let room = table(&[("PAGER", "more"), ("SHELL", "bash")]);
    let mut kept = std::collections::HashMap::new();
    perform(entry_steps(&room), &mut env, &mut kept);
    assert_eq!(env["EDITOR"], "nano");
    assert_eq!(env["PAGER"], "more");
    assert_eq!(env["SHELL"], "bash");
    perform(leave_steps(&room), &mut env, &mut kept);
    assert_eq!(env, configured);
    perform(config_steps(&config, &table(&[("PAGER", "less")])), &mut env, &mut inherited);
    assert_eq!(env["EDITOR"], "vi");
    assert_eq!(env["PAGER"], "less");
}

#[test]
fn a_reload_with_a_room_keeps_room_over_new_config_over_inherited() {
    let mut env = std::collections::HashMap::new();
    env.insert("EDITOR".to_string(), "vi".to_string());
    let mut inherited = std::collections::HashMap::new();
    let old = table(&[("EDITOR", "nano"), ("PAGER", "less")]);
    perform(config_steps(&Table::new(), &old), &mut env, &mut inherited);
    let room = table(&[("PAGER", "more"), ("MODE", "dev")]);
    let mut kept = std::collections::HashMap::new();
    perform(entry_steps(&room), &mut env, &mut kept);
    // reload: leave, change configuration, enter again
    perform(leave_steps(&room), &mut env, &mut kept);
    let new = table(&[("PAGER", "most"), ("LANG", "C")]);
    perform(config_steps(&old, &new), &mut env, &mut inherited);
    let mut kept = std::collections::HashMap::new();
    perform(entry_steps(&room), &mut env, &mut kept);
    assert_eq!(env["EDITOR"], "vi");
    assert_eq!(env["PAGER"], "more");
    assert_eq!(env["MODE"], "dev");
    assert_eq!(env["LANG"], "C");
    perform(leave_steps(&room), &mut env, &mut kept);
    assert_eq!(env["PAGER"], "most");
    assert!(!env.contains_key("MODE"));
}
