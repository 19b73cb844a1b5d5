use raxon::platform::{platform_choice, platform_name, platform_value, TargetPlatform};

#[test]
fn platform_names_are_lowercase() {
    assert_eq!(platform_name(TargetPlatform::Ios), "ios");
    assert_eq!(platform_name(TargetPlatform::Android), "android");
    assert_eq!(platform_name(TargetPlatform::Macos), "macos");
    assert_eq!(platform_name(TargetPlatform::Web), "web");
    assert_eq!(platform_name(TargetPlatform::Other), "unknown");
}

#[test]
fn platform_value_picks_ios_only_on_ios() {
    assert_eq!(platform_value(TargetPlatform::Ios, 1, 2), 1);
    assert_eq!(platform_value(TargetPlatform::Android, 1, 2), 2);
    assert_eq!(platform_value(TargetPlatform::Web, 1, 2), 2);
}

#[test]
fn platform_choice_falls_back_to_other() {
    assert_eq!(platform_choice(TargetPlatform::Ios, 1, 2, 3, 4), 1);
    assert_eq!(platform_choice(TargetPlatform::Android, 1, 2, 3, 4), 2);
    assert_eq!(platform_choice(TargetPlatform::Web, 1, 2, 3, 4), 3);
    assert_eq!(platform_choice(TargetPlatform::Macos, 1, 2, 3, 4), 4);
    assert_eq!(platform_choice(TargetPlatform::Other, 1, 2, 3, 4), 4);
}
