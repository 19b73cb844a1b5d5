//! Choosing a value by target platform.

use vstd::prelude::*;

verus! {

/// The platform a build targets.
#[derive(Debug, Clone, Copy, PartialEq, Eq, Structural)]
pub enum TargetPlatform {
    Ios,
    Android,
    Macos,
    Web,
    Other,
}

/// The lowercase name of a platform.
pub open spec fn platform_name_text(p: TargetPlatform) -> Seq<char> {
    match p {
        TargetPlatform::Ios => "ios"@,
        TargetPlatform::Android => "android"@,
        TargetPlatform::Macos => "macos"@,
        TargetPlatform::Web => "web"@,
        TargetPlatform::Other => "unknown"@,
    }
}

/// The lowercase name of `p`: `ios`, `android`, `macos`, `web`, or
/// `unknown` for any other target.
pub fn platform_name(p: TargetPlatform) -> (r: &'static str)
    ensures
        r@ == platform_name_text(p),
{
    match p {
        TargetPlatform::Ios => "ios",
        TargetPlatform::Android => "android",
        TargetPlatform::Macos => "macos",
        TargetPlatform::Web => "web",
        TargetPlatform::Other => "unknown",
    }
}

/// `ios` on iOS and `android` everywhere else.
pub fn platform_value<T>(p: TargetPlatform, ios: T, android: T) -> (r: T)
    ensures
        r == (if p == TargetPlatform::Ios { ios } else { android }),
{
    match p {
        TargetPlatform::Ios => ios,
        _ => android,
    }
}

/// The value for the major platform `p`: `other` on macOS and unknown
/// targets.
pub fn platform_choice<T>(p: TargetPlatform, ios: T, android: T, web: T, other: T) -> (r: T)
    ensures
        r == (match p {
            TargetPlatform::Ios => ios,
            TargetPlatform::Android => android,
            TargetPlatform::Web => web,
            _ => other,
        }),
{
    match p {
        TargetPlatform::Ios => ios,
        TargetPlatform::Android => android,
        TargetPlatform::Web => web,
        _ => other,
    }
}

} // verus!
