//! Command lines of the media tools: decode paths and picture sizes.

use crate::text::{join2, join3, join4, number_text, push_word, push_words, quiet_args};
use vstd::prelude::*;

verus! {

/// Decode path: hardware backend and whether the downscale happens on the GPU
/// before frames are downloaded (a large win for 4K sources).
#[derive(Debug, Clone, Copy, PartialEq, Eq, Structural)]
pub enum HwAccel {
    Software,
    Vaapi,
    VaapiGpuScale,
    VideoToolbox,
    VideoToolboxGpuScale,
}

/// The operating systems that have hardware decode paths.
#[derive(Debug, Clone, Copy, PartialEq, Eq, Structural)]
pub enum Platform {
    Linux,
    MacOs,
    Other,
}

/// Width of the frames with which a decode path is tried.
pub const TRIAL_WIDTH: u32 = 640;

/// Height of the frames with which a decode path is tried.
pub const TRIAL_HEIGHT: u32 = 360;

/// The words' characters.
pub open spec fn word_views(v: Seq<&'static str>) -> Seq<Seq<char>> {
    Seq::new(v.len(), |i: int| v[i]@)
}

/// Pixel format of downloaded frames.
pub open spec fn download_format(ten_bit: bool) -> Seq<char> {
    if ten_bit {
        "p010"@
    } else {
        "nv12"@
    }
}

impl HwAccel {
    /// Words placed before `-i`.
    pub open spec fn input_words(self) -> Seq<Seq<char>> {
        match self {
            HwAccel::Software => seq![],
            HwAccel::Vaapi => seq!["-hwaccel"@, "vaapi"@],
            HwAccel::VaapiGpuScale => seq!["-hwaccel"@, "vaapi"@, "-hwaccel_output_format"@, "vaapi"@],
            HwAccel::VideoToolbox => seq!["-hwaccel"@, "videotoolbox"@],
            HwAccel::VideoToolboxGpuScale => seq![
                "-hwaccel"@,
                "videotoolbox"@,
                "-hwaccel_output_format"@,
                "videotoolbox"@,
            ],
        }
    }

    /// Arguments placed before `-i`.
    pub fn input_args(self) -> (v: Vec<&'static str>)
        ensures
            word_views(v@) == self.input_words(),
    {
        let mut v: Vec<&'static str> = Vec::new();
        match self {
            HwAccel::Software => {},
            HwAccel::Vaapi => {
                v.push("-hwaccel");
                v.push("vaapi");
            },
            HwAccel::VaapiGpuScale => {
                v.push("-hwaccel");
                v.push("vaapi");
                v.push("-hwaccel_output_format");
                v.push("vaapi");
            },
            HwAccel::VideoToolbox => {
                v.push("-hwaccel");
                v.push("videotoolbox");
            },
            HwAccel::VideoToolboxGpuScale => {
                v.push("-hwaccel");
                v.push("videotoolbox");
                v.push("-hwaccel_output_format");
                v.push("videotoolbox");
            },
        }
        assert(word_views(v@) =~= self.input_words());
        v
    }

    /// Filter that scales to `w`x`h` and leaves frames in system memory.
    pub open spec fn scale_text(self, w: nat, h: nat, ten_bit: bool) -> Seq<char> {
        let size_w = crate::text::decimal(w);
        let size_h = crate::text::decimal(h);
        let fmt = download_format(ten_bit);
        match self {
            HwAccel::VaapiGpuScale => "scale_vaapi=w="@ + size_w + ":h="@ + size_h + ":format="@ + fmt
                + ",hwdownload,format="@ + fmt,
            HwAccel::VideoToolboxGpuScale => "scale_vt=w="@ + size_w + ":h="@ + size_h
                + ",hwdownload,format="@ + fmt,
            _ => "scale="@ + size_w + ":"@ + size_h + ":flags=bicubic"@,
        }
    }

    /// Filter that scales to `w`x`h` and leaves frames in system memory.
    pub fn scale_filter(self, w: u32, h: u32, ten_bit: bool) -> (s: String)
        ensures
            s@ == self.scale_text(w as nat, h as nat, ten_bit),
    {
        let fmt: &str = if ten_bit {
            "p010"
        } else {
            "nv12"
        };
        let wt: String = number_text(w as u64);
        let ht: String = number_text(h as u64);
        match self {
            HwAccel::VaapiGpuScale => {
                let a: String = join4("scale_vaapi=w=", wt.as_str(), ":h=", ht.as_str());
                let b: String = join4(":format=", fmt, ",hwdownload,format=", fmt);
                let s: String = join2(a.as_str(), b.as_str());
                assert(s@ =~= self.scale_text(w as nat, h as nat, ten_bit));
                s
            },
            HwAccel::VideoToolboxGpuScale => {
                let a: String = join4("scale_vt=w=", wt.as_str(), ":h=", ht.as_str());
                let s: String = join3(a.as_str(), ",hwdownload,format=", fmt);
                assert(s@ =~= self.scale_text(w as nat, h as nat, ten_bit));
                s
            },
            _ => {
                let a: String = join4("scale=", wt.as_str(), ":", ht.as_str());
                let s: String = join2(a.as_str(), ":flags=bicubic");
                assert(s@ =~= self.scale_text(w as nat, h as nat, ten_bit));
                s
            },
        }
    }

    /// The decode path's name.
    pub open spec fn name(self) -> Seq<char> {
        match self {
            HwAccel::Software => "software"@,
            HwAccel::Vaapi => "VAAPI"@,
            HwAccel::VaapiGpuScale => "VAAPI + GPU scaling"@,
            HwAccel::VideoToolbox => "VideoToolbox"@,
            HwAccel::VideoToolboxGpuScale => "VideoToolbox + GPU scaling"@,
        }
    }

    /// The decode path's name.
    pub fn label(self) -> (s: &'static str)
        ensures
            s@ == self.name(),
    {
        match self {
            HwAccel::Software => "software",
            HwAccel::Vaapi => "VAAPI",
            HwAccel::VaapiGpuScale => "VAAPI + GPU scaling",
            HwAccel::VideoToolbox => "VideoToolbox",
            HwAccel::VideoToolboxGpuScale => "VideoToolbox + GPU scaling",
        }
    }

    /// The decode paths to be tried, the fastest first.
    pub open spec fn paths_on(platform: Platform) -> Seq<HwAccel> {
        match platform {
            Platform::MacOs => seq![HwAccel::VideoToolboxGpuScale, HwAccel::VideoToolbox],
            Platform::Linux => seq![HwAccel::VaapiGpuScale, HwAccel::Vaapi],
            Platform::Other => seq![],
        }
    }

    /// The decode paths to be tried, the fastest first.
    pub fn candidates(platform: Platform) -> (v: Vec<HwAccel>)
        ensures
            v@ == HwAccel::paths_on(platform),
    {
        let mut v: Vec<HwAccel> = Vec::new();
        match platform {
            Platform::MacOs => {
                v.push(HwAccel::VideoToolboxGpuScale);
                v.push(HwAccel::VideoToolbox);
            },
            Platform::Linux => {
                v.push(HwAccel::VaapiGpuScale);
                v.push(HwAccel::Vaapi);
            },
            Platform::Other => {},
        }
        assert(v@ =~= HwAccel::paths_on(platform));
        v
    }
}

/// Words that make raw pictures go to the standard output.
pub open spec fn raw_words() -> Seq<Seq<char>> {
    seq!["-pix_fmt"@, "rgba"@, "-f"@, "rawvideo"@, "-"@]
}

/// Words that make raw pictures go to the standard output.
pub fn raw_args() -> (v: Vec<String>)
    ensures
        crate::text::text_views(v@) == raw_words(),
{
    let mut v: Vec<String> = Vec::new();
    push_word(&mut v, "-pix_fmt");
    push_word(&mut v, "rgba");
    push_word(&mut v, "-f");
    push_word(&mut v, "rawvideo");
    push_word(&mut v, "-");
    assert(crate::text::text_views(v@) =~= raw_words());
    v
}

/// Appends words to a list of arguments.
pub fn push_static(list: &mut Vec<String>, words: &Vec<&'static str>)
    ensures
        crate::text::text_views(final(list)@) == crate::text::text_views(old(list)@) + word_views(words@),
{
    let ghost was = crate::text::text_views(list@);
    let mut i: usize = 0;
    assert(was + word_views(words@).take(0) =~= was);
    while i < words.len()
        invariant
            i <= words@.len(),
            crate::text::text_views(list@) == was + word_views(words@).take(i as int),
        decreases words@.len() - i,
    {
        push_word(list, words[i]);
        assert(word_views(words@).take(i + 1) =~= word_views(words@).take(i as int).push(
            words@[i as int]@,
        ));
        assert(crate::text::text_views(list@) =~= was + word_views(words@).take(i + 1));
        i = i + 1;
    }
    assert(word_views(words@).take(i as int) =~= word_views(words@));
}

/// Command line that decodes two small frames of `sample` on a decode path.
pub open spec fn trial_words(path: HwAccel, sample: Seq<char>) -> Seq<Seq<char>> {
    crate::text::quiet_words() + path.input_words() + seq![
        "-i"@,
        sample,
        "-an"@,
        "-sn"@,
        "-dn"@,
        "-vf"@,
        path.scale_text(TRIAL_WIDTH as nat, TRIAL_HEIGHT as nat, false) + ",fps=10"@,
        "-frames:v"@,
        "2"@,
    ] + raw_words()
}

/// Command line that decodes two small frames of `sample` on a decode path, with
/// the filter chain that the decoder uses.
pub fn trial_args(path: HwAccel, sample: &str) -> (v: Vec<String>)
    ensures
        crate::text::text_views(v@) == trial_words(path, sample@),
{
    let mut v: Vec<String> = quiet_args();
    let input: Vec<&'static str> = path.input_args();
    push_static(&mut v, &input);
    let scale: String = path.scale_filter(TRIAL_WIDTH, TRIAL_HEIGHT, false);
    let vf: String = join2(scale.as_str(), ",fps=10");
    push_word(&mut v, "-i");
    push_word(&mut v, sample);
    push_word(&mut v, "-an");
    push_word(&mut v, "-sn");
    push_word(&mut v, "-dn");
    push_word(&mut v, "-vf");
    push_word(&mut v, vf.as_str());
    push_word(&mut v, "-frames:v");
    push_word(&mut v, "2");
    let raw: Vec<String> = raw_args();
    push_words(&mut v, &raw);
    assert(crate::text::text_views(v@) =~= trial_words(path, sample@));
    v
}

/// A trial went well: no complaint, and exactly two frames came out.
pub open spec fn trial_passed(success: bool, stderr_len: int, stdout_len: int) -> bool {
    success && stderr_len == 0 && stdout_len == 2 * TRIAL_WIDTH * TRIAL_HEIGHT * 4
}

/// Whether a trial went well.
pub fn trial_ok(success: bool, stderr_len: usize, stdout_len: usize) -> (b: bool)
    ensures
        b == trial_passed(success, stderr_len as int, stdout_len as int),
{
    success && stderr_len == 0 && stdout_len == 1_843_200
}

/// The first decode path whose trial went well, or software.
pub fn detect_hwaccel(platform: Platform, passed: &Vec<bool>) -> (h: HwAccel)
    ensures
        ({
            let paths = HwAccel::paths_on(platform);
            ||| h == HwAccel::Software && forall|k: int|
                0 <= k < paths.len() && k < passed@.len() ==> !#[trigger] passed@[k]
            ||| exists|k: int|
                0 <= k < paths.len() && k < passed@.len() && #[trigger] passed@[k] && h == paths[k] && forall|
                    j: int,
                | 0 <= j < k ==> !#[trigger] passed@[j]
        }),
{
    let paths: Vec<HwAccel> = HwAccel::candidates(platform);
    let mut k: usize = 0;
    while k < paths.len() && k < passed.len()
        invariant
            paths@ == HwAccel::paths_on(platform),
            k <= paths@.len(),
            k <= passed@.len(),
            forall|j: int| 0 <= j < k ==> !#[trigger] passed@[j],
        decreases paths@.len() - k,
    {
        if passed[k] {
            assert(passed@[k as int]);
            return paths[k];
        }
        k = k + 1;
    }
    HwAccel::Software
}

// ---------------------------------------------------------------- picture sizes

/// The factor by which a picture is shrunk to fit, as a fraction: never more
/// than one, and the smaller of what the two edges allow.
pub open spec fn fit_factor(src_w: int, src_h: int, max_w: int, max_h: int) -> (int, int) {
    if src_w <= max_w && src_h <= max_h {
        (1, 1)
    } else if max_w * src_h <= max_h * src_w {
        (max_w, src_w)
    } else {
        (max_h, src_h)
    }
}

/// The nearest even size below, and at least two.
pub open spec fn even_size(n: int) -> int {
    if n < 2 {
        2
    } else {
        n - n % 2
    }
}

/// A picture's size when it is made to fit.
pub open spec fn fitted(src_w: int, src_h: int, max_w: int, max_h: int) -> (int, int) {
    if src_w == 0 || src_h == 0 {
        (2, 2)
    } else {
        let (n, d) = fit_factor(src_w, src_h, max_w, max_h);
        (
            even_size(crate::units::rounded(src_w * n, d)),
            even_size(crate::units::rounded(src_h * n, d)),
        )
    }
}

/// One edge, scaled and made even.
fn fit_edge(edge: u32, n: u32, d: u32) -> (r: u32)
    requires
        0 < d,
        n <= d,
    ensures
        r == even_size(crate::units::rounded(edge * n, d as int)),
{
    proof {
        assert(edge * n <= 0xffff_ffff * 0xffff_ffff) by (nonlinear_arith)
            requires
                edge <= 0xffff_ffff,
                n <= 0xffff_ffff,
        ;
        assert(edge * n <= edge * d) by (nonlinear_arith)
            requires
                n <= d,
                0 <= edge,
        ;
    }
    let q: i128 = crate::units::round_div((edge as i128) * (n as i128), d as i128);
    proof {
        crate::units::lemma_rounded_near(edge * n, d as int);
        assert(0 <= q <= edge) by (nonlinear_arith)
            requires
                -(d as int) <= 2 * (edge * n - q * d) <= d,
                0 <= edge * n <= edge * d,
                d > 0,
        ;
    }
    if q < 2 {
        2
    } else {
        let e: u32 = q as u32;
        e - e % 2
    }
}

/// Fits a picture into `max`, keeping its aspect, never upscaling, with even
/// dimensions.
pub fn fit_size(src_w: u32, src_h: u32, max_w: u32, max_h: u32) -> (s: (u32, u32))
    ensures
        (s.0 as int, s.1 as int) == fitted(src_w as int, src_h as int, max_w as int, max_h as int),
{
    if src_w == 0 || src_h == 0 {
        return (2, 2);
    }
    if src_w <= max_w && src_h <= max_h {
        return (fit_edge(src_w, 1, 1), fit_edge(src_h, 1, 1));
    }
    proof {
        assert(max_w * src_h <= 0xffff_ffff * 0xffff_ffff) by (nonlinear_arith)
            requires
                max_w <= 0xffff_ffff,
                src_h <= 0xffff_ffff,
        ;
        assert(max_h * src_w <= 0xffff_ffff * 0xffff_ffff) by (nonlinear_arith)
            requires
                max_h <= 0xffff_ffff,
                src_w <= 0xffff_ffff,
        ;
        lemma_factor_below_one(src_w as int, src_h as int, max_w as int, max_h as int);
    }
    if (max_w as u64) * (src_h as u64) <= (max_h as u64) * (src_w as u64) {
        (fit_edge(src_w, max_w, src_w), fit_edge(src_h, max_w, src_w))
    } else {
        (fit_edge(src_w, max_h, src_h), fit_edge(src_h, max_h, src_h))
    }
}

proof fn lemma_factor_below_one(src_w: int, src_h: int, max_w: int, max_h: int)
    requires
        src_w > 0,
        src_h > 0,
        max_w >= 0,
        max_h >= 0,
    ensures
        0 <= fit_factor(src_w, src_h, max_w, max_h).0 <= fit_factor(src_w, src_h, max_w, max_h).1,
        fit_factor(src_w, src_h, max_w, max_h).1 > 0,
{
    if src_w <= max_w && src_h <= max_h {
    } else if max_w * src_h <= max_h * src_w {
        assert(max_w <= src_w) by (nonlinear_arith)
            requires
                max_w * src_h <= max_h * src_w,
                !(src_w <= max_w && src_h <= max_h),
                src_w > 0,
                src_h > 0,
                max_h >= 0,
        ;
    } else {
        assert(max_h <= src_h) by (nonlinear_arith)
            requires
                max_w * src_h > max_h * src_w,
                !(src_w <= max_w && src_h <= max_h),
                src_w > 0,
                src_h > 0,
                max_w >= 0,
        ;
    }
}

proof fn lemma_fit_edge(edge: int, n: int, d: int, limit: int)
    requires
        edge > 0,
        0 <= n <= d,
        d > 0,
        edge * n <= limit * d,
        limit >= 2,
    ensures
        2 <= even_size(crate::units::rounded(edge * n, d)) <= limit,
        even_size(crate::units::rounded(edge * n, d)) % 2 == 0,
        edge >= 2 ==> even_size(crate::units::rounded(edge * n, d)) <= edge,
{
    let q = crate::units::rounded(edge * n, d);
    crate::units::lemma_rounded_near(edge * n, d);
    assert(q <= limit) by (nonlinear_arith)
        requires
            -d <= 2 * (edge * n - q * d) <= d,
            edge * n <= limit * d,
            d > 0,
    ;
    assert(q <= edge) by (nonlinear_arith)
        requires
            -d <= 2 * (edge * n - q * d) <= d,
            0 <= n <= d,
            edge > 0,
            d > 0,
    ;
}

/// A fitted picture has even edges of at least two, fits where there is room for
/// that, and is not larger than its source.
pub proof fn lemma_fitted(src_w: int, src_h: int, max_w: int, max_h: int)
    requires
        src_w >= 0,
        src_h >= 0,
        max_w >= 2,
        max_h >= 2,
    ensures
        2 <= fitted(src_w, src_h, max_w, max_h).0 <= max_w,
        2 <= fitted(src_w, src_h, max_w, max_h).1 <= max_h,
        fitted(src_w, src_h, max_w, max_h).0 % 2 == 0,
        fitted(src_w, src_h, max_w, max_h).1 % 2 == 0,
        src_w >= 2 ==> fitted(src_w, src_h, max_w, max_h).0 <= src_w,
        src_h >= 2 ==> fitted(src_w, src_h, max_w, max_h).1 <= src_h,
{
    if src_w > 0 && src_h > 0 {
        lemma_factor_below_one(src_w, src_h, max_w, max_h);
        let (n, d) = fit_factor(src_w, src_h, max_w, max_h);
        assert(src_w * n <= max_w * d && src_h * n <= max_h * d) by {
            if src_w <= max_w && src_h <= max_h {
                assert(n == 1 && d == 1);
                assert(src_w * n == src_w && src_h * n == src_h && max_w * d == max_w && max_h * d
                    == max_h) by (nonlinear_arith)
                    requires
                        n == 1,
                        d == 1,
                ;
            } else if max_w * src_h <= max_h * src_w {
                assert(src_w * max_w == max_w * src_w) by (nonlinear_arith);
                assert(src_h * max_w == max_w * src_h) by (nonlinear_arith);
            } else {
                assert(src_h * max_h == max_h * src_h) by (nonlinear_arith);
                assert(src_w * max_h == max_h * src_w) by (nonlinear_arith);
            }
        }
        lemma_fit_edge(src_w, n, d, max_w);
        lemma_fit_edge(src_h, n, d, max_h);
    }
}

/// Command that writes one picture of raw pixels to a file, in the format that the
/// file's name asks for.
pub open spec fn shot_words(width: u32, height: u32, out: Seq<char>) -> Seq<Seq<char>> {
    crate::text::quiet_words() + seq![
        "-y"@,
        "-f"@,
        "rawvideo"@,
        "-pix_fmt"@,
        "rgba"@,
        "-s"@,
        crate::text::decimal(width as nat) + "x"@ + crate::text::decimal(height as nat),
        "-i"@,
        "-"@,
        "-frames:v"@,
        "1"@,
        out,
    ]
}

/// Command that writes one picture of raw pixels to a file.
pub fn shot_args(width: u32, height: u32, out: &str) -> (v: Vec<String>)
    ensures
        crate::text::text_views(v@) == shot_words(width, height, out@),
{
    let mut v: Vec<String> = quiet_args();
    let w: String = number_text(width as u64);
    let h: String = number_text(height as u64);
    let size: String = join3(w.as_str(), "x", h.as_str());
    push_word(&mut v, "-y");
    push_word(&mut v, "-f");
    push_word(&mut v, "rawvideo");
    push_word(&mut v, "-pix_fmt");
    push_word(&mut v, "rgba");
    push_word(&mut v, "-s");
    push_word(&mut v, size.as_str());
    push_word(&mut v, "-i");
    push_word(&mut v, "-");
    push_word(&mut v, "-frames:v");
    push_word(&mut v, "1");
    push_word(&mut v, out);
    assert(crate::text::text_views(v@) =~= shot_words(width, height, out@));
    v
}

} // verus!
