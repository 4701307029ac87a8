use axtensor::device::Device;

#[test]
fn constructors_and_predicates() {
    assert!(Device::cpu().is_cpu());
    assert!(!Device::cpu().is_gpu());
    assert!(Device::gpu().is_gpu());
    assert!(!Device::gpu().is_cpu());
}

#[test]
fn only_cpu_devices_compare_equal() {
    assert!(Device::cpu() == Device::cpu());
    assert!(Device::cpu() != Device::gpu());
    assert!(Device::gpu() != Device::cpu());
    // GPU contexts are not comparable: a GPU device equals no device.
    let g = Device::gpu();
    assert!(g != g);
}
