use game_rs::tensor::adapter::{
    adapter_backend_priority, adapter_device_type_priority, format_adapter_info,
    select_adapter_explicit, AdapterInfo, GpuAdapterSelector, GpuBackend, GpuDeviceType,
};

fn card() -> AdapterInfo {
    AdapterInfo {
        name: "NVIDIA GeForce RTX".to_string(),
        vendor: 0x10de,
        device: 0x2484,
        device_type: GpuDeviceType::DiscreteGpu,
        backend: GpuBackend::Vulkan,
    }
}

fn check_matches() {
    let selector = GpuAdapterSelector {
        name_substring: Some("nvidia".to_string()),
        vendor_id: Some(0x10de),
        device_id: Some(0x2484),
        backend: Some(GpuBackend::Vulkan),
        device_type: Some(GpuDeviceType::DiscreteGpu),
    };
    let matching = card();
    let wrong_vendor = AdapterInfo { vendor: 0x1002, ..matching.clone() };
    let wrong_name = AdapterInfo { name: "Intel Arc".to_string(), ..matching.clone() };

    assert!(selector.matches(&matching));
    assert!(!selector.matches(&wrong_vendor));
    assert!(!selector.matches(&wrong_name));
}

fn check_description() {
    let selector = GpuAdapterSelector {
        name_substring: Some("RTX".to_string()),
        vendor_id: Some(0x10de),
        device_id: Some(0x2484),
        backend: Some(GpuBackend::Vulkan),
        device_type: Some(GpuDeviceType::DiscreteGpu),
    };

    let description = selector.describe();
    assert!(description.contains("RTX"));
    assert!(description.contains("0x10de"));
    assert!(description.contains("0x2484"));
    assert!(description.contains("vulkan"));
    assert!(description.contains("DiscreteGpu"));
}

fn check_emptiness() {
    assert!(GpuAdapterSelector::default().is_empty());
    assert!(!GpuAdapterSelector {
        name_substring: Some("AMD".to_string()),
        ..GpuAdapterSelector::default()
    }
    .is_empty());
}

fn check_priorities() {
    assert!(
        adapter_device_type_priority(GpuDeviceType::DiscreteGpu)
            > adapter_device_type_priority(GpuDeviceType::IntegratedGpu)
    );
    assert!(
        adapter_backend_priority(GpuBackend::Vulkan) > adapter_backend_priority(GpuBackend::Dx12)
    );
}

#[test]
fn gpu_selector_matches_expected_adapter_fields() {
    check_matches();
}

#[test]
fn mod_selector_matches_expected_adapter_fields() {
    check_matches();
}

#[test]
fn gpu_selector_describe_includes_all_explicit_fields() {
    check_description();
}

#[test]
fn mod_selector_describe_includes_all_explicit_fields() {
    check_description();
}

#[test]
fn gpu_selector_empty_only_when_no_constraints_are_set() {
    check_emptiness();
}

#[test]
fn mod_selector_empty_only_when_no_constraints_are_set() {
    check_emptiness();
}

#[test]
fn gpu_adapter_priority_prefers_discrete_then_vulkan() {
    check_priorities();
}

#[test]
fn mod_adapter_priority_prefers_discrete_then_vulkan() {
    check_priorities();
}

#[test]
fn the_best_of_the_matching_adapters_is_picked() {
    let discrete = card();
    let integrated =
        AdapterInfo { device_type: GpuDeviceType::IntegratedGpu, ..discrete.clone() };
    let dx12 = AdapterInfo { backend: GpuBackend::Dx12, ..discrete.clone() };
    let adapters = vec![integrated, dx12, discrete];
    let selector = GpuAdapterSelector {
        name_substring: Some("rtx".to_string()),
        ..GpuAdapterSelector::default()
    };
    assert_eq!(select_adapter_explicit(&selector, &adapters).unwrap(), 2);
    let none = GpuAdapterSelector { vendor_id: Some(1), ..GpuAdapterSelector::default() };
    let err = select_adapter_explicit(&none, &adapters).unwrap_err();
    assert!(err.text.contains("NVIDIA GeForce RTX"));
}

#[test]
fn adapters_are_described_with_their_numbers() {
    let text = format_adapter_info(&card());
    assert!(text.contains("NVIDIA GeForce RTX"));
    assert!(text.contains("0x10de"));
    assert!(text.contains("0x2484"));
}
