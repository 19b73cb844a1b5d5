//! Widget kinds and how the web and Android backends render them, and
//! colour conversions for those backends.

use vstd::prelude::*;
use crate::text::{text_of, string_from_bytes, decimal_bytes, push_decimal};

verus! {

/// The kinds of widget the framework creates.
#[derive(Debug, Clone, Copy, PartialEq, Eq, Structural)]
pub enum WidgetKind {
    /// A plain container.
    View,
    /// A container that stacks its children.
    Stack,
    /// A run of text.
    Text,
    /// A pressable button.
    Button,
    /// An image.
    Image,
    /// An on/off switch.
    Switch,
    /// A value slider.
    Slider,
    /// A single-line text field.
    TextInput,
    /// A scrolling container.
    Scroll,
    /// An indeterminate activity spinner.
    ActivityIndicator,
    /// A determinate progress bar.
    Progress,
    /// A segmented control.
    Segmented,
    /// A numeric stepper.
    Stepper,
    /// A date picker.
    DatePicker,
    /// A multi-line text field.
    TextArea,
    /// A camera preview.
    Camera,
    /// An embedded web view.
    WebView,
    /// A lazily built list.
    LazyList,
    /// A map.
    MapView,
    /// A drawing surface.
    Canvas,
}

/// DOM element kinds used by the web backend.
#[derive(Debug, Clone, Copy, PartialEq, Eq, Structural)]
pub enum DomElementKind {
    /// A generic `div` container.
    Div,
    /// Inline text content.
    Span,
    /// A native `button`.
    Button,
    /// An `img` element.
    Image,
    /// An `input type=checkbox`.
    Checkbox,
    /// An `input type=range`.
    Range,
    /// An `input type=text`.
    TextInput,
    /// A scrollable `div`.
    ScrollDiv,
    /// An indeterminate progress indicator.
    ActivityIndicator,
    /// A `progress` element.
    Progress,
    /// A segmented-control host.
    Segmented,
    /// A numeric input used as a stepper.
    Stepper,
    /// Date or datetime input.
    DateInput,
    /// A `textarea`.
    TextArea,
    /// A camera preview video host.
    Video,
    /// An `iframe`.
    Iframe,
    /// A virtualized list host.
    VirtualList,
    /// A map host.
    MapHost,
    /// A `canvas`.
    Canvas,
}

/// The DOM element kind that backs a widget kind.
pub open spec fn dom_element_of(kind: WidgetKind) -> DomElementKind {
    match kind {
        WidgetKind::View => DomElementKind::Div,
        WidgetKind::Stack => DomElementKind::Div,
        WidgetKind::Text => DomElementKind::Span,
        WidgetKind::Button => DomElementKind::Button,
        WidgetKind::Image => DomElementKind::Image,
        WidgetKind::Switch => DomElementKind::Checkbox,
        WidgetKind::Slider => DomElementKind::Range,
        WidgetKind::TextInput => DomElementKind::TextInput,
        WidgetKind::Scroll => DomElementKind::ScrollDiv,
        WidgetKind::ActivityIndicator => DomElementKind::ActivityIndicator,
        WidgetKind::Progress => DomElementKind::Progress,
        WidgetKind::Segmented => DomElementKind::Segmented,
        WidgetKind::Stepper => DomElementKind::Stepper,
        WidgetKind::DatePicker => DomElementKind::DateInput,
        WidgetKind::TextArea => DomElementKind::TextArea,
        WidgetKind::Camera => DomElementKind::Video,
        WidgetKind::WebView => DomElementKind::Iframe,
        WidgetKind::LazyList => DomElementKind::VirtualList,
        WidgetKind::MapView => DomElementKind::MapHost,
        WidgetKind::Canvas => DomElementKind::Canvas,
    }
}

/// The HTML tag of a DOM element kind.
pub open spec fn tag_of(kind: DomElementKind) -> &'static str {
    match kind {
        DomElementKind::Div => "div",
        DomElementKind::Span => "span",
        DomElementKind::Button => "button",
        DomElementKind::Image => "img",
        DomElementKind::Checkbox => "input",
        DomElementKind::Range => "input",
        DomElementKind::TextInput => "input",
        DomElementKind::ScrollDiv => "div",
        DomElementKind::ActivityIndicator => "div",
        DomElementKind::Progress => "progress",
        DomElementKind::Segmented => "div",
        DomElementKind::Stepper => "input",
        DomElementKind::DateInput => "input",
        DomElementKind::TextArea => "textarea",
        DomElementKind::Video => "video",
        DomElementKind::Iframe => "iframe",
        DomElementKind::VirtualList => "div",
        DomElementKind::MapHost => "div",
        DomElementKind::Canvas => "canvas",
    }
}

/// The `type` of a DOM element kind represented by `<input>`.
pub open spec fn input_type_of(kind: DomElementKind) -> Option<&'static str> {
    match kind {
        DomElementKind::Checkbox => Some("checkbox"),
        DomElementKind::Range => Some("range"),
        DomElementKind::TextInput => Some("text"),
        DomElementKind::Stepper => Some("number"),
        DomElementKind::DateInput => Some("datetime-local"),
        _ => None,
    }
}

impl DomElementKind {
    /// Maps a widget kind to the DOM element used by the web backend.
    pub fn from_widget_kind(kind: WidgetKind) -> (r: DomElementKind)
        ensures
            r == dom_element_of(kind),
    {
        match kind {
            WidgetKind::View => DomElementKind::Div,
            WidgetKind::Stack => DomElementKind::Div,
            WidgetKind::Text => DomElementKind::Span,
            WidgetKind::Button => DomElementKind::Button,
            WidgetKind::Image => DomElementKind::Image,
            WidgetKind::Switch => DomElementKind::Checkbox,
            WidgetKind::Slider => DomElementKind::Range,
            WidgetKind::TextInput => DomElementKind::TextInput,
            WidgetKind::Scroll => DomElementKind::ScrollDiv,
            WidgetKind::ActivityIndicator => DomElementKind::ActivityIndicator,
            WidgetKind::Progress => DomElementKind::Progress,
            WidgetKind::Segmented => DomElementKind::Segmented,
            WidgetKind::Stepper => DomElementKind::Stepper,
            WidgetKind::DatePicker => DomElementKind::DateInput,
            WidgetKind::TextArea => DomElementKind::TextArea,
            WidgetKind::Camera => DomElementKind::Video,
            WidgetKind::WebView => DomElementKind::Iframe,
            WidgetKind::LazyList => DomElementKind::VirtualList,
            WidgetKind::MapView => DomElementKind::MapHost,
            WidgetKind::Canvas => DomElementKind::Canvas,
        }
    }

    /// HTML tag name to create for this element kind.
    pub fn tag_name(self) -> (r: &'static str)
        ensures
            r == tag_of(self),
    {
        match self {
            DomElementKind::Div => "div",
            DomElementKind::Span => "span",
            DomElementKind::Button => "button",
            DomElementKind::Image => "img",
            DomElementKind::Checkbox => "input",
            DomElementKind::Range => "input",
            DomElementKind::TextInput => "input",
            DomElementKind::ScrollDiv => "div",
            DomElementKind::ActivityIndicator => "div",
            DomElementKind::Progress => "progress",
            DomElementKind::Segmented => "div",
            DomElementKind::Stepper => "input",
            DomElementKind::DateInput => "input",
            DomElementKind::TextArea => "textarea",
            DomElementKind::Video => "video",
            DomElementKind::Iframe => "iframe",
            DomElementKind::VirtualList => "div",
            DomElementKind::MapHost => "div",
            DomElementKind::Canvas => "canvas",
        }
    }

    /// Input type for element kinds represented by `<input>`.
    pub fn input_type(self) -> (r: Option<&'static str>)
        ensures
            r == input_type_of(self),
    {
        match self {
            DomElementKind::Checkbox => Some("checkbox"),
            DomElementKind::Range => Some("range"),
            DomElementKind::TextInput => Some("text"),
            DomElementKind::Stepper => Some("number"),
            DomElementKind::DateInput => Some("datetime-local"),
            _ => None,
        }
    }
}

/// Android view classes used by the Android backend.
#[derive(Debug, Clone, Copy, PartialEq, Eq, Structural)]
pub enum AndroidViewClass {
    /// A generic `FrameLayout` container.
    FrameLayout,
    /// A `TextView`.
    TextView,
    /// A `Button`.
    Button,
    /// An `ImageView`.
    ImageView,
    /// A `Switch`.
    Switch,
    /// A `SeekBar`.
    SeekBar,
    /// An `EditText`.
    EditText,
    /// A `ScrollView` / `HorizontalScrollView`.
    ScrollView,
    /// A `ProgressBar` in indeterminate mode.
    ActivityIndicator,
    /// A determinate `ProgressBar`.
    ProgressBar,
    /// A segmented-control host, typically backed by Material buttons.
    SegmentedControl,
    /// A numeric stepper host.
    Stepper,
    /// A `DatePicker` or `TimePicker` host.
    DatePicker,
    /// A camera preview host.
    CameraPreview,
    /// A `WebView`.
    WebView,
    /// A `RecyclerView`.
    RecyclerView,
    /// A map view host.
    MapView,
    /// A custom canvas view.
    CanvasView,
}

/// The Android view class that backs a widget kind.
pub open spec fn android_class_of(kind: WidgetKind) -> AndroidViewClass {
    match kind {
        WidgetKind::View => AndroidViewClass::FrameLayout,
        WidgetKind::Stack => AndroidViewClass::FrameLayout,
        WidgetKind::Text => AndroidViewClass::TextView,
        WidgetKind::Button => AndroidViewClass::Button,
        WidgetKind::Image => AndroidViewClass::ImageView,
        WidgetKind::Switch => AndroidViewClass::Switch,
        WidgetKind::Slider => AndroidViewClass::SeekBar,
        WidgetKind::TextInput => AndroidViewClass::EditText,
        WidgetKind::Scroll => AndroidViewClass::ScrollView,
        WidgetKind::ActivityIndicator => AndroidViewClass::ActivityIndicator,
        WidgetKind::Progress => AndroidViewClass::ProgressBar,
        WidgetKind::Segmented => AndroidViewClass::SegmentedControl,
        WidgetKind::Stepper => AndroidViewClass::Stepper,
        WidgetKind::DatePicker => AndroidViewClass::DatePicker,
        WidgetKind::TextArea => AndroidViewClass::EditText,
        WidgetKind::Camera => AndroidViewClass::CameraPreview,
        WidgetKind::WebView => AndroidViewClass::WebView,
        WidgetKind::LazyList => AndroidViewClass::RecyclerView,
        WidgetKind::MapView => AndroidViewClass::MapView,
        WidgetKind::Canvas => AndroidViewClass::CanvasView,
    }
}

/// The fully-qualified class name of an Android view class.
pub open spec fn class_name_of(class: AndroidViewClass) -> &'static str {
    match class {
        AndroidViewClass::FrameLayout => "android.widget.FrameLayout",
        AndroidViewClass::TextView => "android.widget.TextView",
        AndroidViewClass::Button => "android.widget.Button",
        AndroidViewClass::ImageView => "android.widget.ImageView",
        AndroidViewClass::Switch => "android.widget.Switch",
        AndroidViewClass::SeekBar => "android.widget.SeekBar",
        AndroidViewClass::EditText => "android.widget.EditText",
        AndroidViewClass::ScrollView => "android.widget.ScrollView",
        AndroidViewClass::ActivityIndicator => "android.widget.ProgressBar",
        AndroidViewClass::ProgressBar => "android.widget.ProgressBar",
        AndroidViewClass::SegmentedControl => "com.google.android.material.button.MaterialButtonToggleGroup",
        AndroidViewClass::Stepper => "android.widget.NumberPicker",
        AndroidViewClass::DatePicker => "android.widget.DatePicker",
        AndroidViewClass::CameraPreview => "android.view.TextureView",
        AndroidViewClass::WebView => "android.webkit.WebView",
        AndroidViewClass::RecyclerView => "androidx.recyclerview.widget.RecyclerView",
        AndroidViewClass::MapView => "com.google.android.gms.maps.MapView",
        AndroidViewClass::CanvasView => "android.view.View",
    }
}

impl AndroidViewClass {
    /// Maps a widget kind to the Android view class that should back it.
    pub fn from_widget_kind(kind: WidgetKind) -> (r: AndroidViewClass)
        ensures
            r == android_class_of(kind),
    {
        match kind {
            WidgetKind::View => AndroidViewClass::FrameLayout,
            WidgetKind::Stack => AndroidViewClass::FrameLayout,
            WidgetKind::Text => AndroidViewClass::TextView,
            WidgetKind::Button => AndroidViewClass::Button,
            WidgetKind::Image => AndroidViewClass::ImageView,
            WidgetKind::Switch => AndroidViewClass::Switch,
            WidgetKind::Slider => AndroidViewClass::SeekBar,
            WidgetKind::TextInput => AndroidViewClass::EditText,
            WidgetKind::Scroll => AndroidViewClass::ScrollView,
            WidgetKind::ActivityIndicator => AndroidViewClass::ActivityIndicator,
            WidgetKind::Progress => AndroidViewClass::ProgressBar,
            WidgetKind::Segmented => AndroidViewClass::SegmentedControl,
            WidgetKind::Stepper => AndroidViewClass::Stepper,
            WidgetKind::DatePicker => AndroidViewClass::DatePicker,
            WidgetKind::TextArea => AndroidViewClass::EditText,
            WidgetKind::Camera => AndroidViewClass::CameraPreview,
            WidgetKind::WebView => AndroidViewClass::WebView,
            WidgetKind::LazyList => AndroidViewClass::RecyclerView,
            WidgetKind::MapView => AndroidViewClass::MapView,
            WidgetKind::Canvas => AndroidViewClass::CanvasView,
        }
    }

    /// Fully-qualified Android class name for the default host.
    pub fn class_name(self) -> (r: &'static str)
        ensures
            r == class_name_of(self),
    {
        match self {
            AndroidViewClass::FrameLayout => "android.widget.FrameLayout",
            AndroidViewClass::TextView => "android.widget.TextView",
            AndroidViewClass::Button => "android.widget.Button",
            AndroidViewClass::ImageView => "android.widget.ImageView",
            AndroidViewClass::Switch => "android.widget.Switch",
            AndroidViewClass::SeekBar => "android.widget.SeekBar",
            AndroidViewClass::EditText => "android.widget.EditText",
            AndroidViewClass::ScrollView => "android.widget.ScrollView",
            AndroidViewClass::ActivityIndicator => "android.widget.ProgressBar",
            AndroidViewClass::ProgressBar => "android.widget.ProgressBar",
            AndroidViewClass::SegmentedControl => "com.google.android.material.button.MaterialButtonToggleGroup",
            AndroidViewClass::Stepper => "android.widget.NumberPicker",
            AndroidViewClass::DatePicker => "android.widget.DatePicker",
            AndroidViewClass::CameraPreview => "android.view.TextureView",
            AndroidViewClass::WebView => "android.webkit.WebView",
            AndroidViewClass::RecyclerView => "androidx.recyclerview.widget.RecyclerView",
            AndroidViewClass::MapView => "com.google.android.gms.maps.MapView",
            AndroidViewClass::CanvasView => "android.view.View",
        }
    }
}


/// An RGBA colour with 8-bit channels.
#[derive(Debug, Clone, Copy, PartialEq, Eq, Structural)]
pub struct Color {
    pub r: u8,
    pub g: u8,
    pub b: u8,
    pub a: u8,
}

impl Color {
    /// A colour from its four channels.
    pub fn rgba(r: u8, g: u8, b: u8, a: u8) -> (c: Color)
        ensures
            c == (Color { r, g, b, a }),
    {
        Color { r, g, b, a }
    }

    /// An opaque colour from its three colour channels.
    pub fn rgb(r: u8, g: u8, b: u8) -> (c: Color)
        ensures
            c == (Color { r, g, b, a: 255 }),
    {
        Color { r, g, b, a: 255 }
    }

    /// The colour packed as `0xAARRGGBB`.
    pub fn to_argb_u32(self) -> (v: u32)
        ensures
            v == self.a as u32 * 0x100_0000 + self.r as u32 * 0x1_0000 + self.g as u32 * 0x100 + self.b as u32,
    {
        (self.a as u32) * 0x100_0000 + (self.r as u32) * 0x1_0000 + (self.g as u32) * 0x100 + (self.b as u32)
    }
}

/// Converts a colour into Android's packed `0xAARRGGBB` layout.
pub fn color_to_argb(color: Color) -> (v: u32)
    ensures
        v == color.a as u32 * 0x100_0000 + color.r as u32 * 0x1_0000 + color.g as u32 * 0x100 + color.b as u32,
{
    color.to_argb_u32()
}

/// Alpha in thousandths, rounded to nearest: `a / 255` with three decimals.
pub open spec fn alpha_milli(a: u8) -> nat {
    ((a as nat) * 2000 + 255) / 510
}

/// The bytes of `rgba(r, g, b, A.AAA)` with alpha as a fraction of 255
/// rounded to three decimals.
pub open spec fn css_bytes(c: Color) -> Seq<u8> {
    let m = alpha_milli(c.a);
    let sep = seq![0x2cu8, 0x20];
    seq![0x72u8, 0x67, 0x62, 0x61, 0x28] + decimal_bytes(c.r as nat) + sep + decimal_bytes(c.g as nat) + sep
        + decimal_bytes(c.b as nat) + sep + decimal_bytes(m / 1000) + seq![0x2eu8]
        + seq![(0x30 + (m % 1000) / 100) as u8, (0x30 + (m % 100) / 10) as u8, (0x30 + m % 10) as u8]
        + seq![0x29u8]
}

/// Converts a colour into an `rgba(r, g, b, a)` CSS string, alpha with
/// three decimals.
pub fn color_to_css(color: Color) -> (s: String)
    ensures
        s@ == text_of(css_bytes(color)),
{
    let m: u32 = ((color.a as u32) * 2000 + 255) / 510;
    assert(m == alpha_milli(color.a));
    assert(m <= 1000) by (nonlinear_arith)
        requires
            m == ((color.a as nat) * 2000 + 255) / 510,
            color.a <= 255,
    ;
    let ghost sep = seq![0x2cu8, 0x20];
    let mut out: Vec<u8> = Vec::new();
    out.push(0x72);
    out.push(0x67);
    out.push(0x62);
    out.push(0x61);
    out.push(0x28);
    let ghost p0 = out@;
    assert(p0 =~= seq![0x72u8, 0x67, 0x62, 0x61, 0x28]);
    push_decimal(&mut out, color.r as u64);
    out.push(0x2c);
    out.push(0x20);
    let ghost p1 = out@;
    assert(p1 =~= p0 + decimal_bytes(color.r as nat) + sep);
    push_decimal(&mut out, color.g as u64);
    out.push(0x2c);
    out.push(0x20);
    let ghost p2 = out@;
    assert(p2 =~= p1 + decimal_bytes(color.g as nat) + sep);
    push_decimal(&mut out, color.b as u64);
    out.push(0x2c);
    out.push(0x20);
    let ghost p3 = out@;
    assert(p3 =~= p2 + decimal_bytes(color.b as nat) + sep);
    push_decimal(&mut out, (m / 1000) as u64);
    out.push(0x2e);
    let ghost p4 = out@;
    assert(p4 =~= p3 + decimal_bytes((m / 1000) as nat) + seq![0x2eu8]);
    let d1 = (0x30 + (m % 1000) / 100) as u8;
    let d2 = (0x30 + (m % 100) / 10) as u8;
    let d3 = (0x30 + m % 10) as u8;
    out.push(d1);
    out.push(d2);
    out.push(d3);
    out.push(0x29);
    assert(out@ =~= p4 + seq![d1, d2, d3] + seq![0x29u8]);
    proof {
        let mm = alpha_milli(color.a);
        assert(d1 == (0x30 + (mm % 1000) / 100) as u8);
        assert(d2 == (0x30 + (mm % 100) / 10) as u8);
        assert(d3 == (0x30 + mm % 10) as u8);
    }
    string_from_bytes(out.as_slice())
}

} // verus!
