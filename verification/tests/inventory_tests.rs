use gander::inventory::{
    resolve_host, resolve_inventory, InventoryError, Manifest, RequiredField, DEFAULT_SSH_PORT,
};

fn manifest(
    address: Option<&str>,
    ssh_user: Option<&str>,
    ssh_port: Option<u16>,
    extra: &[(&str, &str)],
) -> Manifest {
    Manifest {
        address: address.map(|s| s.to_string()),
        ssh_user: ssh_user.map(|s| s.to_string()),
        ssh_port,
        extra_keys: extra
            .iter()
            .map(|(k, v)| (k.to_string(), v.to_string()))
            .collect(),
    }
}

fn path(segments: &[&str]) -> Vec<String> {
    segments.iter().map(|s| s.to_string()).collect()
}

fn extra_value<'a>(kvs: &'a [(String, String)], key: &str) -> Option<&'a str> {
    kvs.iter()
        .find(|(k, _)| k == key)
        .map(|(_, v)| v.as_str())
}

#[test]
fn host_and_two_group_levels_merge() {
    // root/defaults sets ssh_user=alice; root/groupA/defaults sets
    // ssh_port=2022; root/groupA/host1 sets address=10.0.0.1.
    let groups = vec![
        (path(&[]), manifest(None, Some("alice"), None, &[])),
        (path(&["groupA"]), manifest(None, None, Some(2022), &[])),
    ];
    let hosts = vec![(
        path(&["groupA", "host1"]),
        manifest(Some("10.0.0.1"), None, None, &[]),
    )];
    let inv = resolve_inventory(&groups, &hosts).unwrap();
    assert_eq!(inv.hosts.len(), 1);
    let h = &inv.hosts[0];
    assert_eq!(h.path, path(&["groupA", "host1"]));
    assert_eq!(h.address, "10.0.0.1");
    assert_eq!(h.ssh_user, "alice");
    assert_eq!(h.ssh_port, 2022);
}

#[test]
fn host_fragment_overrides_every_group_level() {
    // root/groupA/host2 additionally sets ssh_user=bob: the host fragment
    // beats the root default.
    let groups = vec![
        (path(&[]), manifest(None, Some("alice"), None, &[])),
        (path(&["groupA"]), manifest(None, None, Some(2022), &[])),
    ];
    let hosts = vec![(
        path(&["groupA", "host2"]),
        manifest(Some("10.0.0.2"), Some("bob"), None, &[]),
    )];
    let inv = resolve_inventory(&groups, &hosts).unwrap();
    assert_eq!(inv.hosts[0].ssh_user, "bob");
    assert_eq!(inv.hosts[0].ssh_port, 2022);
}

#[test]
fn nearest_scalar_wins_and_port_defaults() {
    // The nearer group's ssh_user wins over the root's; ssh_port is 22 when
    // no fragment ever sets it.
    let groups = vec![
        (path(&[]), manifest(None, Some("root-user"), None, &[])),
        (path(&["g"]), manifest(None, Some("near-user"), None, &[])),
    ];
    let hosts = vec![(path(&["g", "h"]), manifest(Some("10.1.1.1"), None, None, &[]))];
    let inv = resolve_inventory(&groups, &hosts).unwrap();
    assert_eq!(inv.hosts[0].ssh_user, "near-user");
    assert_eq!(inv.hosts[0].ssh_port, DEFAULT_SSH_PORT);
    assert_eq!(inv.hosts[0].ssh_port, 22);
}

#[test]
fn extra_keys_prefer_nearest_scope() {
    let groups = vec![
        (
            path(&[]),
            manifest(None, Some("alice"), None, &[("env", "prod"), ("dc", "eu"), ("tier", "a")]),
        ),
        (path(&["g"]), manifest(None, None, None, &[("env", "stage")])),
    ];
    let hosts = vec![(
        path(&["g", "h"]),
        manifest(Some("10.2.2.2"), None, None, &[("env", "dev")]),
    )];
    let inv = resolve_inventory(&groups, &hosts).unwrap();
    let extra = &inv.hosts[0].extra_keys;
    // Host beats group beats root.
    assert_eq!(extra_value(extra, "env"), Some("dev"));
    // Keys only the root supplies survive the union.
    assert_eq!(extra_value(extra, "dc"), Some("eu"));
    assert_eq!(extra_value(extra, "tier"), Some("a"));
    assert_eq!(extra_value(extra, "absent"), None);
}

#[test]
fn missing_address_fails_naming_field_and_host() {
    let groups = vec![(path(&[]), manifest(None, Some("alice"), None, &[]))];
    let hosts = vec![(path(&["g", "h"]), manifest(None, None, None, &[]))];
    let err = resolve_inventory(&groups, &hosts).unwrap_err();
    let InventoryError::MissingRequiredField { field, host_path } = err;
    assert_eq!(field, RequiredField::Address);
    assert_eq!(field.key_name(), "address");
    assert_eq!(host_path, path(&["g", "h"]));
}

#[test]
fn missing_user_fails_naming_field_and_host() {
    let groups: Vec<(Vec<String>, Manifest)> = Vec::new();
    let hosts = vec![(path(&["h"]), manifest(Some("10.0.0.9"), None, None, &[]))];
    let err = resolve_inventory(&groups, &hosts).unwrap_err();
    let InventoryError::MissingRequiredField { field, host_path } = err;
    assert_eq!(field, RequiredField::SshUser);
    assert_eq!(field.key_name(), "ssh_user");
    assert_eq!(host_path, path(&["h"]));
}

#[test]
fn empty_address_fails_like_a_missing_one() {
    let groups: Vec<(Vec<String>, Manifest)> = Vec::new();
    let hosts = vec![(path(&["h"]), manifest(Some(""), Some("alice"), None, &[]))];
    let err = resolve_inventory(&groups, &hosts).unwrap_err();
    let InventoryError::MissingRequiredField { field, host_path } = err;
    assert_eq!(field, RequiredField::Address);
    assert_eq!(host_path, path(&["h"]));
}

#[test]
fn empty_user_from_group_default_fails_naming_field() {
    let groups = vec![(path(&[]), manifest(None, Some(""), None, &[]))];
    let hosts = vec![(path(&["g", "h"]), manifest(Some("10.0.0.1"), None, None, &[]))];
    let err = resolve_inventory(&groups, &hosts).unwrap_err();
    let InventoryError::MissingRequiredField { field, host_path } = err;
    assert_eq!(field, RequiredField::SshUser);
    assert_eq!(host_path, path(&["g", "h"]));
}

#[test]
fn nearest_empty_value_still_wins_the_fold_and_fails() {
    // The host fragment supplies ssh_user, so it wins the merge even though
    // its value is empty; validation then rejects the resolved host rather
    // than falling back to the farther, non-empty default.
    let groups = vec![(path(&[]), manifest(None, Some("alice"), None, &[]))];
    let hosts = vec![(
        path(&["h"]),
        manifest(Some("10.0.0.1"), Some(""), None, &[]),
    )];
    let err = resolve_inventory(&groups, &hosts).unwrap_err();
    let InventoryError::MissingRequiredField { field, host_path } = err;
    assert_eq!(field, RequiredField::SshUser);
    assert_eq!(host_path, path(&["h"]));
}

#[test]
fn validate_rejects_empty_required_fields() {
    let m = manifest(Some(""), Some("alice"), None, &[]);
    let err = m.validate(path(&["h"])).unwrap_err();
    let InventoryError::MissingRequiredField { field, .. } = err;
    assert_eq!(field, RequiredField::Address);

    let m = manifest(Some("10.0.0.1"), Some(""), None, &[]);
    let err = m.validate(path(&["h"])).unwrap_err();
    let InventoryError::MissingRequiredField { field, .. } = err;
    assert_eq!(field, RequiredField::SshUser);
}

#[test]
fn first_failing_host_aborts_whole_load() {
    let groups: Vec<(Vec<String>, Manifest)> = Vec::new();
    let hosts = vec![
        (path(&["ok"]), manifest(Some("10.0.0.1"), Some("alice"), None, &[])),
        (path(&["bad"]), manifest(None, Some("alice"), None, &[])),
        (path(&["later"]), manifest(Some("10.0.0.3"), Some("alice"), None, &[])),
    ];
    let err = resolve_inventory(&groups, &hosts).unwrap_err();
    let InventoryError::MissingRequiredField { field, host_path } = err;
    assert_eq!(field, RequiredField::Address);
    assert_eq!(host_path, path(&["bad"]));
}

#[test]
fn or_prefers_self_on_every_field() {
    let near = manifest(Some("10.0.0.1"), None, Some(2200), &[("env", "dev")]);
    let far = manifest(Some("10.9.9.9"), Some("alice"), Some(22), &[("env", "prod"), ("dc", "eu")]);
    let merged = near.or(&far);
    assert_eq!(merged.address.as_deref(), Some("10.0.0.1"));
    assert_eq!(merged.ssh_user.as_deref(), Some("alice"));
    assert_eq!(merged.ssh_port, Some(2200));
    assert_eq!(extra_value(&merged.extra_keys, "env"), Some("dev"));
    assert_eq!(extra_value(&merged.extra_keys, "dc"), Some("eu"));
    assert_eq!(merged.extra_keys.len(), 2);
}

#[test]
fn validate_fills_port_default() {
    let m = manifest(Some("10.0.0.1"), Some("alice"), None, &[("k", "v")]);
    let h = m.validate(path(&["a", "b"])).unwrap();
    assert_eq!(h.ssh_port, 22);
    assert_eq!(h.address, "10.0.0.1");
    assert_eq!(h.ssh_user, "alice");
    assert_eq!(extra_value(&h.extra_keys, "k"), Some("v"));
}

#[test]
fn validate_reports_address_before_user() {
    let m = manifest(None, None, None, &[]);
    let err = m.validate(path(&["h"])).unwrap_err();
    let InventoryError::MissingRequiredField { field, .. } = err;
    assert_eq!(field, RequiredField::Address);
}

#[test]
fn resolve_host_ignores_unrelated_groups() {
    let groups = vec![
        (path(&["other"]), manifest(Some("10.9.9.9"), Some("mallory"), None, &[])),
        (path(&[]), manifest(None, Some("alice"), None, &[])),
    ];
    let host = manifest(Some("10.0.0.1"), None, None, &[]);
    let h = resolve_host(&path(&["g", "h"]), &host, &groups).unwrap();
    assert_eq!(h.ssh_user, "alice");
    assert_eq!(h.address, "10.0.0.1");
}
