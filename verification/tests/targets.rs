use tir::attributes::{AttributeValue, RegisterAttr};
use tir::target::{supported_targets, TargetInfo};
use tir::target_boilerplate::{apply_mattr, normalize_name};
use tir::targets::{machine_model_kind, Arm64Target, MachineModelKind, RiscvRegAlloc, RiscvTarget};

#[test]
fn supported_targets_are_sorted_and_unique() {
    let targets = [
        TargetInfo { canonical_names: vec!["riscv64", "riscv32"] },
        TargetInfo { canonical_names: vec!["arm64", "riscv64"] },
        TargetInfo { canonical_names: vec![] },
    ];
    assert_eq!(supported_targets(&targets), vec!["arm64", "riscv32", "riscv64"]);
    assert!(supported_targets(&[]).is_empty());
    let prefixes = [TargetInfo { canonical_names: vec!["ab", "a", "abc", "b", "a"] }];
    assert_eq!(supported_targets(&prefixes), vec!["a", "ab", "abc", "b"]);
}

#[test]
fn normalize_name_folds_spelling() {
    assert_eq!(normalize_name("zicsr"), "zicsr");
    assert_eq!(normalize_name("  Zi_CSR\t"), "zicsr");
    assert_eq!(normalize_name("Zicsr"), normalize_name("zicsr"));
    assert_eq!(normalize_name("zi_csr"), normalize_name("zicsr"));
    assert_eq!(normalize_name("zi-csr"), normalize_name("zi_csr"));
    assert_eq!(normalize_name(" _ a-"), "a");
    assert_eq!(normalize_name("RV64GC"), "rv64gc");
    assert_eq!(normalize_name(" \u{3000} "), "");
    assert_eq!(normalize_name("a b"), "a b");
}

fn lookup(name: &str) -> Option<Vec<u16>> {
    match name {
        "m" => Some(vec![1, 2]),
        "zmmul" => Some(vec![2]),
        "c" => Some(vec![3]),
        _ => None,
    }
}

#[test]
fn apply_mattr_toggles_in_order() {
    let mut features = vec![3];
    assert_eq!(apply_mattr(&mut features, "+m, -c,,", "riscv", lookup), Ok(()));
    assert_eq!(features, vec![1, 2]);
    assert_eq!(apply_mattr(&mut features, "-zmmul,+c,+m", "riscv", lookup), Ok(()));
    assert_eq!(features, vec![1, 3, 2]);
    assert_eq!(apply_mattr(&mut features, "", "riscv", lookup), Ok(()));
    assert_eq!(features, vec![1, 3, 2]);
}

#[test]
fn apply_mattr_reports_bad_entries_after_applying_earlier_ones() {
    let mut features = vec![];
    assert_eq!(
        apply_mattr(&mut features, "+c, m", "riscv", lookup),
        Err("invalid --mattr entry 'm' (expected '+feature' or '-feature')".to_string())
    );
    assert_eq!(features, vec![3]);
    let mut features = vec![];
    assert_eq!(
        apply_mattr(&mut features, "+m,+zfoo,+c", "riscv", lookup),
        Err("unknown riscv feature 'zfoo' in --mattr".to_string())
    );
    assert_eq!(features, vec![1, 2]);
}

#[test]
fn normalize_name_is_idempotent() {
    for s in ["  Zi_CSR\t", "rv64_IMAC-zicsr", " _ a", "", "-_-", "x y"] {
        let once = normalize_name(s);
        assert_eq!(normalize_name(&once), once);
        assert!(!once.contains('_') && !once.contains('-'));
        assert!(!once.chars().any(|c| c.is_ascii_uppercase()));
        assert_eq!(once.trim(), once);
    }
}

fn small_lookup(name: &str) -> Option<Vec<u8>> {
    match name {
        "a" => Some(vec![1]),
        "b" => Some(vec![2]),
        _ => None,
    }
}

#[test]
fn apply_mattr_adds_and_removes_each_toggled_feature() {
    let mut features = vec![1u8];
    assert_eq!(apply_mattr(&mut features, "+b, -a", "riscv", small_lookup), Ok(()));
    assert_eq!(features, vec![2u8]);
    let mut features = vec![1u8, 2, 1];
    assert_eq!(apply_mattr(&mut features, "-a", "riscv", small_lookup), Ok(()));
    assert_eq!(features, vec![2u8]);
}

#[test]
fn apply_mattr_errors_name_the_entry() {
    let mut features: Vec<u8> = vec![];
    assert_eq!(
        apply_mattr(&mut features, "a", "riscv", small_lookup),
        Err("invalid --mattr entry 'a' (expected '+feature' or '-feature')".to_string())
    );
    assert_eq!(
        apply_mattr(&mut features, "+zz", "riscv", small_lookup),
        Err("unknown riscv feature 'zz' in --mattr".to_string())
    );
    assert!(features.is_empty());
    assert_eq!(
        apply_mattr(&mut features, "+a,+zz", "riscv", small_lookup),
        Err("unknown riscv feature 'zz' in --mattr".to_string())
    );
    assert_eq!(features, vec![1u8]);
}

#[test]
fn machine_models_by_name() {
    assert_eq!(machine_model_kind("in-order"), Some(MachineModelKind::InOrder));
    assert_eq!(machine_model_kind("inorder"), Some(MachineModelKind::InOrder));
    assert_eq!(machine_model_kind("ooo"), Some(MachineModelKind::OutOfOrder));
    assert_eq!(machine_model_kind("out-of-order"), Some(MachineModelKind::OutOfOrder));
    assert_eq!(machine_model_kind("OOO"), None);
    let arm = Arm64Target::new("arm64");
    assert_eq!(arm.name(), "arm64");
    assert_eq!(arm.machine_model("ooo"), Some(MachineModelKind::OutOfOrder));
    let rv = RiscvTarget::new("riscv64");
    assert_eq!(rv.name(), "riscv64");
    assert_eq!(rv.machine_model("fast"), None);
}

#[test]
fn riscv_spill_and_frame_code() {
    let ra = RiscvRegAlloc;
    let sp = ra.frame_register();
    assert_eq!(sp, ("GPR".to_string(), 2));
    let store = ra.emit_spill_store(17, "GPR", &sp, -16);
    assert_eq!(store.op, ("riscv", "sd"));
    assert_eq!(store.attributes[0].name, "rs1");
    assert_eq!(
        store.attributes[0].value,
        AttributeValue::Register(RegisterAttr::Physical { class: "GPR".to_string(), index: 2 })
    );
    assert_eq!(
        store.attributes[1].value,
        AttributeValue::Register(RegisterAttr::Virtual { id: 17, class: Some("GPR".to_string()) })
    );
    assert_eq!(store.attributes[2].value, AttributeValue::Int(-16));
    let reload = ra.emit_spill_reload(17, "FPR", &sp, 8);
    assert_eq!(reload.op, ("riscv", "ld"));
    assert_eq!(reload.attributes[0].name, "rd");
    assert_eq!(
        reload.attributes[0].value,
        AttributeValue::Register(RegisterAttr::Virtual { id: 17, class: Some("FPR".to_string()) })
    );
    let prologue = ra.emit_prologue(48);
    assert_eq!(prologue.len(), 1);
    assert_eq!(prologue[0].op, ("riscv", "addi"));
    assert_eq!(prologue[0].attributes[2].value, AttributeValue::Int(-48));
    let epilogue = ra.emit_epilogue(48);
    assert_eq!(epilogue[0].attributes[2].value, AttributeValue::Int(48));
}
