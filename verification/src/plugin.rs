//! What a plugin is to the host: frames with their context, and the
//! capability set that every plugin implements.
use vstd::prelude::*;
use y4m::{Colorspace, Ratio};

verus! {

/// `y4m::Colorspace`, carried through as an opaque value.
#[verifier::external_type_specification]
#[verifier::external_body]
pub struct ExColorspace(Colorspace);

/// `y4m::Ratio`, carried through as an opaque value.
#[verifier::external_type_specification]
#[verifier::external_body]
pub struct ExRatio(Ratio);

/// Geometry, timing and colorspace of a frame.
#[derive(Debug, Clone, Copy)]
pub struct FrameContext {
    colourspace: Colorspace,
    framerate: Ratio,
    width: usize,
    height: usize,
    pixel_aspect: Ratio,
    bit_depth: usize,
    bytes_per_sample: usize,
}

impl FrameContext {
    /// The colorspace of the samples.
    pub closed spec fn colorspace(&self) -> Colorspace {
        self.colourspace
    }

    /// Frames per second, as a ratio.
    pub closed spec fn framerate(&self) -> Ratio {
        self.framerate
    }

    /// Width in pixels.
    pub closed spec fn width(&self) -> usize {
        self.width
    }

    /// Height in pixels.
    pub closed spec fn height(&self) -> usize {
        self.height
    }

    /// Width of a pixel over its height.
    pub closed spec fn pixel_aspect(&self) -> Ratio {
        self.pixel_aspect
    }

    /// Bits per sample.
    pub closed spec fn bit_depth(&self) -> usize {
        self.bit_depth
    }

    /// Bytes that a sample takes in a plane.
    pub closed spec fn bytes_per_sample(&self) -> usize {
        self.bytes_per_sample
    }

    /// A context with the given fields.
    pub fn new(
        colourspace: Colorspace,
        framerate: Ratio,
        width: usize,
        height: usize,
        pixel_aspect: Ratio,
        bit_depth: usize,
        bytes_per_sample: usize,
    ) -> (c: FrameContext)
        ensures
            c.colorspace() == colourspace,
            c.framerate() == framerate,
            c.width() == width,
            c.height() == height,
            c.pixel_aspect() == pixel_aspect,
            c.bit_depth() == bit_depth,
            c.bytes_per_sample() == bytes_per_sample,
    {
        FrameContext {
            colourspace,
            framerate,
            width,
            height,
            pixel_aspect,
            bit_depth,
            bytes_per_sample,
        }
    }

    /// The colorspace of the samples.
    pub fn get_colorspace(&self) -> (c: Colorspace)
        ensures
            c == self.colorspace(),
    {
        self.colourspace
    }

    /// Frames per second, as a ratio.
    pub fn get_framerate(&self) -> (r: Ratio)
        ensures
            r == self.framerate(),
    {
        self.framerate
    }

    /// Width in pixels.
    pub fn get_width(&self) -> (w: usize)
        ensures
            w == self.width(),
    {
        self.width
    }

    /// Height in pixels.
    pub fn get_height(&self) -> (h: usize)
        ensures
            h == self.height(),
    {
        self.height
    }

    /// Width of a pixel over its height.
    pub fn get_pixel_aspect(&self) -> (r: Ratio)
        ensures
            r == self.pixel_aspect(),
    {
        self.pixel_aspect
    }

    /// Bits per sample.
    pub fn get_bit_depth(&self) -> (d: usize)
        ensures
            d == self.bit_depth(),
    {
        self.bit_depth
    }

    /// Bytes that a sample takes in a plane.
    pub fn get_bytes_per_sample(&self) -> (n: usize)
        ensures
            n == self.bytes_per_sample(),
    {
        self.bytes_per_sample
    }
}

/// A frame as a mathematical value: its three planes and its context.
pub struct FrameView {
    pub y: Seq<u8>,
    pub u: Seq<u8>,
    pub v: Seq<u8>,
    pub context: FrameContext,
}

/// A planar frame with its context. A frame is never changed in place: a
/// filter hands on the frame it was given, or makes a new one.
#[derive(Debug)]
pub struct Frame {
    y: Vec<u8>,
    u: Vec<u8>,
    v: Vec<u8>,
    context: FrameContext,
}

impl View for Frame {
    type V = FrameView;

    closed spec fn view(&self) -> FrameView {
        FrameView { y: self.y@, u: self.u@, v: self.v@, context: self.context }
    }
}

/// The views of a sequence of frames.
pub open spec fn frame_views(frames: Seq<Frame>) -> Seq<FrameView> {
    Seq::new(frames.len(), |i: int| frames[i]@)
}

fn copy_bytes(bytes: &Vec<u8>) -> (r: Vec<u8>)
    ensures
        r@ == bytes@,
{
    let mut r: Vec<u8> = Vec::new();
    let mut i: usize = 0;
    while i < bytes.len()
        invariant
            i <= bytes.len(),
            r@ == bytes@.subrange(0, i as int),
        decreases bytes.len() - i,
    {
        r.push(bytes[i]);
        proof {
            assert(r@ =~= bytes@.subrange(0, i + 1));
        }
        i = i + 1;
    }
    proof {
        assert(bytes@.subrange(0, bytes.len() as int) =~= bytes@);
    }
    r
}

impl Frame {
    /// The frame with the given planes and context.
    pub fn new(y: Vec<u8>, u: Vec<u8>, v: Vec<u8>, context: FrameContext) -> (f: Frame)
        ensures
            f@ == (FrameView { y: y@, u: u@, v: v@, context }),
    {
        Frame { y, u, v, context }
    }

    /// The luma plane.
    pub fn get_y_plane(&self) -> (p: &Vec<u8>)
        ensures
            p@ == self@.y,
    {
        &self.y
    }

    /// The first chroma plane.
    pub fn get_u_plane(&self) -> (p: &Vec<u8>)
        ensures
            p@ == self@.u,
    {
        &self.u
    }

    /// The second chroma plane.
    pub fn get_v_plane(&self) -> (p: &Vec<u8>)
        ensures
            p@ == self@.v,
    {
        &self.v
    }

    /// The context of the frame.
    pub fn get_context(&self) -> (c: FrameContext)
        ensures
            c == self@.context,
    {
        self.context
    }

    /// A second frame with the same planes and context.
    pub fn duplicate(&self) -> (f: Frame)
        ensures
            f@ == self@,
    {
        Frame {
            y: copy_bytes(&self.y),
            u: copy_bytes(&self.u),
            v: copy_bytes(&self.v),
            context: self.context,
        }
    }
}

/// What a plugin may declare beyond the plain transform.
#[derive(Debug, Clone, Copy, PartialEq, Eq)]
pub enum PluginFeatures {
    /// Accepts several frames per call; the value is the number of frames.
    /// The host reads the declaration, not the number.
    MultiInput(u64),
    OpenCl,
}

/// Whether `features` declares multi-frame input.
pub open spec fn declares_multi_input(features: Seq<PluginFeatures>) -> bool {
    exists|i: int| 0 <= i < features.len() && #[trigger] features[i] is MultiInput
}

/// Whether `features` declares multi-frame input.
pub fn has_multi_input(features: &Vec<PluginFeatures>) -> (b: bool)
    ensures
        b == declares_multi_input(features@),
{
    let mut i: usize = 0;
    while i < features.len()
        invariant
            i <= features.len(),
            forall|k: int| 0 <= k < i ==> !(#[trigger] features@[k] is MultiInput),
        decreases features.len() - i,
    {
        match features[i] {
            PluginFeatures::MultiInput(_) => {
                return true;
            },
            PluginFeatures::OpenCl => {},
        }
        i = i + 1;
    }
    false
}

/// The characters of an optional text.
pub open spec fn text_view(text: Option<&str>) -> Option<Seq<char>> {
    match text {
        Some(t) => Some(t@),
        None => None,
    }
}

/// The capability set of a plugin. The host calls `name` and `features`
/// once, when the plugin is loaded, and believes nothing about what they
/// return. Of the two transforms it believes what the plugin says of them
/// in `transforms` and `transforms_all`; a plugin that says nothing there
/// promises nothing.
pub trait Plugin: Send + Sync {
    /// The name under which filtergraphs refer to the plugin.
    fn name(&self) -> &'static str;

    /// Called once, right after the plugin was constructed.
    fn on_plugin_load(&self) {
    }

    /// Called once, before the plugin is dropped.
    fn on_plugin_unload(&self) {
    }

    /// What the plugin may give for one frame: `out` is a result of
    /// `get_frame` on `frame` with `args`. A plugin that says nothing of its
    /// transform may give anything.
    open spec fn transforms(
        &self,
        frame: FrameView,
        args: Option<Seq<char>>,
        out: Seq<FrameView>,
    ) -> bool {
        true
    }

    /// What the plugin may give for several frames: `out` is a result of
    /// `get_frames` on `frames` with `args`.
    open spec fn transforms_all(
        &self,
        frames: Seq<FrameView>,
        args: Option<Seq<char>>,
        out: Seq<FrameView>,
    ) -> bool {
        true
    }

    /// Transforms one frame into any number of frames.
    fn get_frame(&self, frame: Frame, args: &Option<&str>) -> (out: Vec<Frame>)
        ensures
            self.transforms(frame@, text_view(*args), frame_views(out@)),
    ;

    /// Transforms several frames at once; called in place of `get_frame` on
    /// a plugin that declares `MultiInput`.
    fn get_frames(&self, frames: Vec<Frame>, args: Option<&str>) -> (out: Vec<Frame>)
        ensures
            self.transforms_all(frame_views(frames@), text_view(args), frame_views(out@)),
    ;

    /// The features that the plugin declares. A plugin that does not say
    /// declares none.
    fn features(&self) -> (declared: Vec<PluginFeatures>)
        default_ensures
            declared@ == Seq::<PluginFeatures>::empty(),
    {
        Vec::new()
    }
}

/// The plugin that does nothing: it hands every frame on as it is.
#[derive(Debug, Default)]
pub struct ExamplePlugin;

impl Plugin for ExamplePlugin {
    fn name(&self) -> (n: &'static str)
        ensures
            n@ == "example"@,
    {
        "example"
    }

    /// One frame gives that frame, whatever the argument text.
    open spec fn transforms(
        &self,
        frame: FrameView,
        args: Option<Seq<char>>,
        out: Seq<FrameView>,
    ) -> bool {
        out == seq![frame]
    }

    /// Hands the frame on.
    fn get_frame(&self, frame: Frame, args: &Option<&str>) -> (out: Vec<Frame>)
        ensures
            frame_views(out@) == seq![frame@],
    {
        let ghost given = frame@;
        let mut out: Vec<Frame> = Vec::new();
        out.push(frame);
        proof {
            assert(frame_views(out@) =~= seq![given]);
        }
        out
    }

    /// Several frames at once give nothing: the plugin takes one frame at
    /// a time.
    open spec fn transforms_all(
        &self,
        frames: Seq<FrameView>,
        args: Option<Seq<char>>,
        out: Seq<FrameView>,
    ) -> bool {
        out == Seq::<FrameView>::empty()
    }

    /// Gives no frame.
    fn get_frames(&self, frames: Vec<Frame>, args: Option<&str>) -> (out: Vec<Frame>)
        ensures
            frame_views(out@) == Seq::<FrameView>::empty(),
    {
        let out: Vec<Frame> = Vec::new();
        proof {
            assert(frame_views(out@) =~= Seq::<FrameView>::empty());
        }
        out
    }
}

/// Arguments that a plugin reads from the raw argument text of its filter.
pub trait PluginArgs: Send + Sync + Sized {
    /// The arguments that `input` denotes.
    fn from_input(&self, input: Option<&str>) -> Self;
}

} // verus!
