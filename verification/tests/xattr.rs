use hybrid_mount::utils::fs::xattr::{
    apply_system_context, copy_extended_attributes, guess_context_by_path,
    is_overlay_xattr_supported, lgetfilecon, ContextFacts, CONTEXT_HAL, CONTEXT_ROOTFS,
    CONTEXT_SYSTEM, CONTEXT_VENDOR,
};

fn facts() -> ContextFacts {
    ContextFacts {
        name: Some("libfoo.so".to_string()),
        parent_ctx: None,
        current_ctx: None,
        system_path: "/system/lib/libfoo.so".to_string(),
        system_exists: false,
        system_ctx: None,
        system_parent_exists: false,
        system_parent_ctx: None,
    }
}

#[test]
fn label_is_read_without_trailing_nul() {
    assert_eq!(lgetfilecon(Some("u:object_r:system_file:s0\0")), Some("u:object_r:system_file:s0".to_string()));
    assert_eq!(lgetfilecon(Some("\0")), Some("".to_string()));
    assert_eq!(lgetfilecon(Some("plain")), Some("plain".to_string()));
    assert_eq!(lgetfilecon(None), None);
}

#[test]
fn label_is_guessed_from_the_path() {
    assert_eq!(guess_context_by_path("/system/bin/sh"), CONTEXT_SYSTEM);
    assert_eq!(guess_context_by_path("/system/lib/libc.so"), CONTEXT_SYSTEM);
    assert_eq!(guess_context_by_path("/product/app"), "u:object_r:system_file:s0");
    assert_eq!(guess_context_by_path("/vendor/lib/hw/x"), CONTEXT_HAL);
    assert_eq!(guess_context_by_path("/vendor/lib64/x"), "u:object_r:same_process_hal_file:s0");
    assert_eq!(guess_context_by_path("/odm/x/libz.so"), CONTEXT_HAL);
    assert_eq!(guess_context_by_path("/vendor/bin/hw"), CONTEXT_VENDOR);
    assert_eq!(guess_context_by_path("/vendor/firmware/x.bin"), "u:object_r:vendor_file:s0");
    assert_eq!(guess_context_by_path("/odm/etc"), CONTEXT_VENDOR);
    assert_eq!(guess_context_by_path("/vendor/lib"), CONTEXT_VENDOR);
}

#[test]
fn copy_rewrites_rootfs_label_and_picks_overlay_attributes() {
    let names = vec![
        "security.selinux".to_string(),
        "trusted.overlay.opaque".to_string(),
        "trusted.overlay.redirect".to_string(),
        "user.comment".to_string(),
        "trusted.overlay.metacopy".to_string(),
        "trusted.overlayfoo".to_string(),
    ];
    let c = copy_extended_attributes(Some("u:object_r:vendor_file:s0".to_string()), Some(b"y".to_vec()), &names);
    assert_eq!(c.context, "u:object_r:vendor_file:s0");
    assert_eq!(c.opaque, Some(b"y".to_vec()));
    assert_eq!(
        c.names,
        vec!["trusted.overlay.redirect".to_string(), "trusted.overlay.metacopy".to_string()]
    );
    let rootfs = copy_extended_attributes(Some(CONTEXT_ROOTFS.to_string()), None, &vec![]);
    assert_eq!(rootfs.context, CONTEXT_SYSTEM);
    assert_eq!(rootfs.opaque, None);
    assert!(rootfs.names.is_empty());
    let unlabeled = copy_extended_attributes(None, None, &vec![]);
    assert_eq!(unlabeled.context, "u:object_r:system_file:s0");
}

#[test]
fn staging_directories_take_the_parent_label() {
    let mut f = facts();
    f.name = Some("upperdir".to_string());
    f.parent_ctx = Some("u:object_r:parent:s0".to_string());
    f.current_ctx = Some("u:object_r:good:s0".to_string());
    assert_eq!(apply_system_context(&f), Some("u:object_r:parent:s0".to_string()));
    f.name = Some("workdir".to_string());
    assert_eq!(apply_system_context(&f), Some("u:object_r:parent:s0".to_string()));
    f.parent_ctx = None;
    assert_eq!(apply_system_context(&f), None);
}

#[test]
fn meaningful_label_is_kept() {
    let mut f = facts();
    f.current_ctx = Some("u:object_r:custom:s0".to_string());
    assert_eq!(apply_system_context(&f), None);
    for weak in ["", "u:object_r:rootfs:s0", "u:object_r:unlabeled:s0"] {
        f.current_ctx = Some(weak.to_string());
        assert_eq!(apply_system_context(&f), Some(CONTEXT_SYSTEM.to_string()));
    }
}

#[test]
fn label_comes_from_the_live_path() {
    let mut f = facts();
    f.system_exists = true;
    f.system_ctx = Some("u:object_r:system_lib_file:s0".to_string());
    assert_eq!(apply_system_context(&f), Some("u:object_r:system_lib_file:s0".to_string()));
    f.system_ctx = Some(CONTEXT_ROOTFS.to_string());
    assert_eq!(apply_system_context(&f), Some(CONTEXT_SYSTEM.to_string()));
    f.system_ctx = None;
    f.system_parent_exists = true;
    f.system_parent_ctx = Some("u:object_r:ignored:s0".to_string());
    assert_eq!(apply_system_context(&f), Some(CONTEXT_SYSTEM.to_string()));
}

#[test]
fn label_comes_from_the_live_directory_when_the_path_is_new() {
    let mut f = facts();
    f.system_path = "/vendor/lib/libnew.so".to_string();
    f.system_parent_exists = true;
    f.system_parent_ctx = Some(CONTEXT_VENDOR.to_string());
    assert_eq!(apply_system_context(&f), Some(CONTEXT_HAL.to_string()));
    f.system_parent_ctx = Some("u:object_r:vendor_hal_file:s0".to_string());
    assert_eq!(apply_system_context(&f), Some("u:object_r:vendor_hal_file:s0".to_string()));
    f.system_path = "/vendor/etc/new.conf".to_string();
    f.system_parent_ctx = Some(CONTEXT_VENDOR.to_string());
    assert_eq!(apply_system_context(&f), Some(CONTEXT_VENDOR.to_string()));
    f.system_parent_ctx = Some(CONTEXT_ROOTFS.to_string());
    assert_eq!(apply_system_context(&f), Some(CONTEXT_VENDOR.to_string()));
    f.system_parent_ctx = None;
    assert_eq!(apply_system_context(&f), Some(CONTEXT_VENDOR.to_string()));
}

#[test]
fn kernel_configuration_is_searched_for_tmpfs_xattr() {
    assert!(is_overlay_xattr_supported("CONFIG_TMPFS=y\nCONFIG_TMPFS_XATTR=y\n"));
    assert!(is_overlay_xattr_supported(" CONFIG_TMPFS_XATTR = y \r\n"));
    assert!(!is_overlay_xattr_supported("# CONFIG_TMPFS_XATTR=y\n"));
    assert!(!is_overlay_xattr_supported("#CONFIG_TMPFS_XATTR=y\nCONFIG_TMPFS_XATTR=n\n"));
    assert!(!is_overlay_xattr_supported("# CONFIG_TMPFS_XATTR is not set\n"));
    assert!(!is_overlay_xattr_supported("CONFIG_TMPFS_XATTR=m\n"));
    assert!(!is_overlay_xattr_supported("CONFIG_TMPFS_XATTR_EXTRA=y\n"));
    assert!(!is_overlay_xattr_supported("CONFIG_TMPFS_XATTR\n"));
    assert!(!is_overlay_xattr_supported(""));
    assert!(is_overlay_xattr_supported("CONFIG_A=n\nCONFIG_TMPFS_XATTR=n\nCONFIG_TMPFS_XATTR=y"));
}
