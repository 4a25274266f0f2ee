//! Previews: images decoded, scaled down and encoded once, then served
//! from the cache.

use crate::cache::CacheModel;
use crate::cache::CachedImage;
use crate::cache::ImageCache;
use crate::errors::EngineError;
use crate::parallel::par_map_index;
use crate::picture::data_url;
use crate::codec::raster_decoding;
use crate::picture::decode_raster;
use crate::picture::decoded_image;
use crate::picture::embed_png;
use crate::picture::fits_base64;
use crate::picture::resize_image_to_png;
use crate::picture::resized_file_of;
use crate::picture::PixelBuffer;
use crate::scale::scaled_size;
use vstd::prelude::*;
use vstd::string::StringExecFns;

verus! {

/// A preview as it is handed to the caller: the embedded image, its size,
/// and the size of the file it was made from.
#[derive(Debug)]
pub struct ImageResult {
    pub data_url: String,
    pub width: u32,
    pub height: u32,
    pub original_width: u32,
    pub original_height: u32,
}

/// The character of a decimal digit.
pub open spec fn digit_char(d: int) -> char {
    if d == 0 {
        '0'
    } else if d == 1 {
        '1'
    } else if d == 2 {
        '2'
    } else if d == 3 {
        '3'
    } else if d == 4 {
        '4'
    } else if d == 5 {
        '5'
    } else if d == 6 {
        '6'
    } else if d == 7 {
        '7'
    } else if d == 8 {
        '8'
    } else {
        '9'
    }
}

/// A number written in decimal digits.
pub open spec fn decimal(n: nat) -> Seq<char>
    decreases n,
{
    if n < 10 {
        seq![digit_char(n as int)]
    } else {
        decimal(n / 10).push(digit_char((n % 10) as int))
    }
}

/// The key under which the preview of a file within given bounds is cached:
/// the path, a colon, the width, an `x` and the height.
pub open spec fn cache_key_text(path: Seq<char>, max_width: u32, max_height: u32) -> Seq<char> {
    path + seq![':'] + decimal(max_width as nat) + seq!['x'] + decimal(max_height as nat)
}

fn digit_text(d: u32) -> (text: &'static str)
    requires
        d < 10,
    ensures
        text@ == seq![digit_char(d as int)],
{
    proof {
        reveal_strlit("0");
        reveal_strlit("1");
        reveal_strlit("2");
        reveal_strlit("3");
        reveal_strlit("4");
        reveal_strlit("5");
        reveal_strlit("6");
        reveal_strlit("7");
        reveal_strlit("8");
        reveal_strlit("9");
    }
    let text = if d == 0 {
        "0"
    } else if d == 1 {
        "1"
    } else if d == 2 {
        "2"
    } else if d == 3 {
        "3"
    } else if d == 4 {
        "4"
    } else if d == 5 {
        "5"
    } else if d == 6 {
        "6"
    } else if d == 7 {
        "7"
    } else if d == 8 {
        "8"
    } else {
        "9"
    };
    assert(text@ =~= seq![digit_char(d as int)]);
    text
}

fn append_decimal(text: &mut String, n: u32)
    ensures
        final(text)@ == old(text)@ + decimal(n as nat),
    decreases n,
{
    if n >= 10 {
        append_decimal(text, n / 10);
    }
    text.append(digit_text(n % 10));
    assert(text@ =~= old(text)@ + decimal(n as nat));
}

/// Builds the cache key of a path within given bounds.
pub fn cache_key(path: &str, max_width: u32, max_height: u32) -> (key: String)
    ensures
        key@ == cache_key_text(path@, max_width, max_height),
{
    proof {
        reveal_strlit(":");
        reveal_strlit("x");
    }
    let mut key = String::from_str(path);
    key.append(":");
    append_decimal(&mut key, max_width);
    key.append("x");
    append_decimal(&mut key, max_height);
    assert(key@ =~= cache_key_text(path@, max_width, max_height));
    key
}

/// The preview that a cached image is served as. The size of the file it
/// was made from is not kept in the cache; the cached size stands in.
pub open spec fn served(image: CachedImage, result: ImageResult) -> bool {
    &&& result.data_url@ == data_url(image.data@)
    &&& result.width == image.width
    &&& result.height == image.height
    &&& result.original_width == image.width
    &&& result.original_height == image.height
}

/// Serves a preview from the cache, where the cache holds the key.
pub fn cached_image_result(cache: &ImageCache, key: &str) -> (out: Result<
    Option<ImageResult>,
    EngineError,
>)
    ensures
        cache@.is_tidy(),
        match out {
            Ok(Some(result)) => cache@.entries.contains_key(key@) && served(
                cache@.entries[key@],
                result,
            ) && fits_base64(cache@.entries[key@].data@.len() as int),
            Ok(None) => !cache@.entries.contains_key(key@),
            Err(e) => cache@.entries.contains_key(key@) && !fits_base64(
                cache@.entries[key@].data@.len() as int,
            ) && e is Encode,
        },
{
    match cache.get(key) {
        Some(image) => {
            match embed_png(image.data.as_slice()) {
                Ok(url) => Ok(
                    Some(
                        ImageResult {
                            data_url: url,
                            width: image.width,
                            height: image.height,
                            original_width: image.width,
                            original_height: image.height,
                        },
                    ),
                ),
                Err(e) => Err(e),
            }
        },
        None => Ok(None),
    }
}

/// The preview of an image of a width and height within the bounds: the
/// image to cache and the result to hand out show the same picture, and its
/// size is the size of the image scaled to fit the bounds.
pub open spec fn previews(
    image: CachedImage,
    result: ImageResult,
    width: u32,
    height: u32,
    max_width: u32,
    max_height: u32,
) -> bool {
    &&& image.width == result.width
    &&& image.height == result.height
    &&& result.data_url@ == data_url(image.data@)
    &&& result.original_width == width
    &&& result.original_height == height
    &&& result.width == scaled_size(width, height, max_width, max_height).0
    &&& result.height == scaled_size(width, height, max_width, max_height).1
    &&& result.width <= width
    &&& result.height <= height
}

/// The PNG file of the preview of an image within the bounds, where there is
/// one: the image can be scaled and encoded, and the text of the file can be
/// held in memory.
pub open spec fn preview_file(
    width: u32,
    height: u32,
    data: Seq<u8>,
    max_width: u32,
    max_height: u32,
) -> Option<Seq<u8>> {
    match resized_file_of(width, height, data, max_width, max_height) {
        Some(file) => if fits_base64(file.len() as int) {
            Some(file)
        } else {
            None
        },
        None => None,
    }
}

/// The preview of an image entered the cache under a key: the cache went
/// through the insertion of an image under the key, that image holds the
/// file of the preview, and the result shows it.
pub open spec fn entered(
    before: CacheModel,
    after: CacheModel,
    key: Seq<char>,
    width: u32,
    height: u32,
    data: Seq<u8>,
    max_width: u32,
    max_height: u32,
    result: ImageResult,
) -> bool {
    exists|image: CachedImage|
        {
            &&& #[trigger] before.inserted(key, image) == after
            &&& previews(image, result, width, height, max_width, max_height)
            &&& preview_file(width, height, data, max_width, max_height) == Some(image.data@)
        }
}

/// Scales a decoded image to fit the bounds and encodes it: the image to
/// cache, and the result to hand out.
pub fn render_preview(img: &PixelBuffer, max_width: u32, max_height: u32) -> (out: Result<
    (CachedImage, ImageResult),
    EngineError,
>)
    ensures
        match out {
            Ok(pair) => previews(pair.0, pair.1, img.width, img.height, max_width, max_height)
                && preview_file(img.width, img.height, img.data@, max_width, max_height) == Some(
                pair.0.data@,
            ),
            Err(e) => preview_file(img.width, img.height, img.data@, max_width, max_height)
                is None && (e is Buffer || e is Encode),
        },
{
    let sized = match resize_image_to_png(img, max_width, max_height) {
        Ok(sized) => sized,
        Err(e) => {
            return Err(e);
        },
    };
    let url = match embed_png(sized.0.as_slice()) {
        Ok(url) => url,
        Err(e) => {
            return Err(e);
        },
    };
    let image = CachedImage { data: sized.0, width: sized.1, height: sized.2 };
    let result = ImageResult {
        data_url: url,
        width: sized.1,
        height: sized.2,
        original_width: img.width,
        original_height: img.height,
    };
    Ok((image, result))
}

/// What preparing the preview of a raster file gives: where the bytes
/// decode, the preview of the decoded image or the reason why it cannot be
/// made; where they do not, the decoder's failure.
pub open spec fn prepared(
    path: Seq<char>,
    bytes: Seq<u8>,
    max_width: u32,
    max_height: u32,
    out: Result<(CachedImage, ImageResult), EngineError>,
) -> bool {
    match decoded_image(path, bytes) {
        Some(decoded) => match out {
            Ok(pair) => previews(pair.0, pair.1, decoded.0, decoded.1, max_width, max_height)
                && preview_file(decoded.0, decoded.1, decoded.2, max_width, max_height) == Some(
                pair.0.data@,
            ),
            Err(e) => preview_file(decoded.0, decoded.1, decoded.2, max_width, max_height)
                is None && (e is Buffer || e is Encode),
        },
        None => out matches Err(e) && (e is Decode || e is Buffer),
    }
}

/// Decodes the bytes of a raster file, scales the image to fit the bounds
/// and encodes it: the image to cache and the result to hand out. The cache
/// is not needed for this step.
pub fn prepare_preview(path: &str, bytes: &[u8], max_width: u32, max_height: u32) -> (out: Result<
    (CachedImage, ImageResult),
    EngineError,
>)
    ensures
        prepared(path@, bytes@, max_width, max_height, out),
{
    match decode_raster(path, bytes) {
        Ok(img) => render_preview(&img, max_width, max_height),
        Err(e) => Err(e.prefixed("Failed to open image: ")),
    }
}

/// Enters a prepared preview into the cache under a key and hands out its
/// result. This step only stores.
pub fn enter_preview(cache: &mut ImageCache, key: String, preview: (CachedImage, ImageResult)) -> (result:
    ImageResult)
    ensures
        final(cache)@ == old(cache)@.inserted(key@, preview.0),
        final(cache)@.is_tidy(),
        result == preview.1,
{
    cache.insert(key, preview.0);
    preview.1
}

/// Returns the preview of a raster file within given bounds: from the cache
/// where the cache holds it, else decoded from the bytes of the file,
/// scaled, encoded and entered into the cache.
///
/// A hit leaves the cache as it is and does not look at the bytes; it fails
/// only where the text of the cached file cannot be held in memory. A miss
/// succeeds where the bytes decode and the preview can be made. A failure
/// leaves the cache as it was.
pub fn decode_and_resize_image(
    cache: &mut ImageCache,
    path: &str,
    bytes: &[u8],
    max_width: u32,
    max_height: u32,
) -> (out: Result<ImageResult, EngineError>)
    ensures
        final(cache)@.is_tidy(),
        old(cache)@.entries.contains_key(cache_key_text(path@, max_width, max_height)) ==> {
            &&& final(cache)@ == old(cache)@
            &&& out is Ok <==> fits_base64(
                old(cache)@.entries[cache_key_text(path@, max_width, max_height)].data@.len() as int,
            )
            &&& match out {
                Ok(result) => served(
                    old(cache)@.entries[cache_key_text(path@, max_width, max_height)],
                    result,
                ),
                Err(e) => e is Encode,
            }
        },
        !old(cache)@.entries.contains_key(cache_key_text(path@, max_width, max_height))
            ==> match decoded_image(path@, bytes@) {
            Some(decoded) => match out {
                Ok(result) => entered(
                    old(cache)@,
                    final(cache)@,
                    cache_key_text(path@, max_width, max_height),
                    decoded.0,
                    decoded.1,
                    decoded.2,
                    max_width,
                    max_height,
                    result,
                ),
                Err(e) => {
                    &&& final(cache)@ == old(cache)@
                    &&& preview_file(decoded.0, decoded.1, decoded.2, max_width, max_height)
                        is None
                    &&& e is Buffer || e is Encode
                },
            },
            None => out matches Err(e) && final(cache)@ == old(cache)@ && (e is Decode || e
                is Buffer),
        },
{
    let key = cache_key(path, max_width, max_height);
    match cached_image_result(cache, key.as_str()) {
        Ok(Some(result)) => {
            return Ok(result);
        },
        Ok(None) => {},
        Err(e) => {
            return Err(e);
        },
    }
    match prepare_preview(path, bytes, max_width, max_height) {
        Ok(preview) => {
            let ghost image = preview.0;
            let result = enter_preview(cache, key, preview);
            assert(old(cache)@.inserted(cache_key_text(path@, max_width, max_height), image)
                == cache@);
            Ok(result)
        },
        Err(e) => Err(e),
    }
}

/// The texts of a list of strings.
pub open spec fn texts(list: Seq<String>) -> Seq<Seq<char>> {
    Seq::new(list.len(), |i: int| list[i]@)
}

/// For every path, whether the cache holds its preview within the bounds.
pub open spec fn held_of(
    entries: Map<Seq<char>, CachedImage>,
    paths: Seq<Seq<char>>,
    max_width: u32,
    max_height: u32,
) -> Seq<bool> {
    Seq::new(
        paths.len(),
        |i: int| entries.contains_key(cache_key_text(paths[i], max_width, max_height)),
    )
}

/// The paths among the first `n` that are not held, in order.
pub open spec fn unheld(paths: Seq<Seq<char>>, held: Seq<bool>, n: int) -> Seq<Seq<char>>
    decreases n,
{
    if n <= 0 {
        Seq::empty()
    } else if held[n - 1] {
        unheld(paths, held, n - 1)
    } else {
        unheld(paths, held, n - 1).push(paths[n - 1])
    }
}

/// The paths among the first `n` whose preview the cache lacks, in order.
pub open spec fn uncached(
    entries: Map<Seq<char>, CachedImage>,
    paths: Seq<Seq<char>>,
    max_width: u32,
    max_height: u32,
    n: int,
) -> Seq<Seq<char>> {
    unheld(paths, held_of(entries, paths, max_width, max_height), n)
}

/// Picks the paths whose preview within the bounds is not in the cache.
pub fn paths_to_load(cache: &ImageCache, paths: &Vec<String>, max_width: u32, max_height: u32) -> (out:
    Vec<String>)
    ensures
        texts(out@) == uncached(
            cache@.entries,
            texts(paths@),
            max_width,
            max_height,
            paths@.len() as int,
        ),
{
    let mut out: Vec<String> = Vec::new();
    let mut i: usize = 0;
    while i < paths.len()
        invariant
            i <= paths@.len(),
            texts(out@) == uncached(cache@.entries, texts(paths@), max_width, max_height, i as int),
        decreases paths@.len() - i,
    {
        let key = cache_key(paths[i].as_str(), max_width, max_height);
        let ghost before = texts(out@);
        assert(texts(paths@)[i as int] == paths@[i as int]@);
        if cache.get(key.as_str()).is_none() {
            out.push(paths[i].clone());
            assert(texts(out@) =~= before.push(paths@[i as int]@));
        }
        i = i + 1;
    }
    out
}

/// The status of a path whose preview the cache held.
pub open spec fn cached_status(path: Seq<char>) -> Seq<char> {
    "cached:"@ + path
}

/// The status of a path that was loaded.
pub open spec fn loaded_status(path: Seq<char>) -> Seq<char> {
    "loaded:"@ + path
}

/// The status of a path that failed.
pub open spec fn error_status(path: Seq<char>, reason: Seq<char>) -> Seq<char> {
    "error:"@ + path + seq![':'] + reason
}

/// The reason given where a file could not be opened or decoded.
pub open spec fn open_error(reason: Seq<char>) -> Seq<char> {
    "open error: "@ + reason
}

/// The file and size of the preview that a file that was read is loaded as,
/// where there is one: the file was read, its bytes decode, and the image
/// can be scaled and encoded.
pub open spec fn load_outcome(
    path: Seq<char>,
    file: Result<Vec<u8>, String>,
    max_width: u32,
    max_height: u32,
) -> Option<(Seq<u8>, int, int)> {
    match file {
        Ok(bytes) => match decoded_image(path, bytes@) {
            Some(decoded) => match resized_file_of(
                decoded.0,
                decoded.1,
                decoded.2,
                max_width,
                max_height,
            ) {
                Some(png) => Some(
                    (
                        png,
                        scaled_size(decoded.0, decoded.1, max_width, max_height).0,
                        scaled_size(decoded.0, decoded.1, max_width, max_height).1,
                    ),
                ),
                None => None,
            },
            None => None,
        },
        Err(_) => None,
    }
}

/// The result is what loading a file for a path gives: the preview where
/// there is one, else a reason. A file that was not read gives the reason it
/// came with, a file that does not decode the decoder's.
pub open spec fn loads(
    path: Seq<char>,
    file: Result<Vec<u8>, String>,
    max_width: u32,
    max_height: u32,
    out: Result<(Vec<u8>, u32, u32), String>,
) -> bool {
    match out {
        Ok(sized) => load_outcome(path, file, max_width, max_height) == Some(
            (sized.0@, sized.1 as int, sized.2 as int),
        ),
        Err(text) => {
            &&& load_outcome(path, file, max_width, max_height) is None
            &&& match file {
                Ok(bytes) => raster_decoding(path, bytes@) matches Err(reason) ==> text@
                    == open_error(reason),
                Err(reason) => text@ == open_error(reason@),
            }
        },
    }
}

/// Decodes, scales and encodes one file that was read, or passes on why it
/// could not be read.
pub fn load_one(path: &str, file: &Result<Vec<u8>, String>, max_width: u32, max_height: u32) -> (out:
    Result<(Vec<u8>, u32, u32), String>)
    ensures
        loads(path@, *file, max_width, max_height, out),
{
    match file {
        Ok(bytes) => match decode_raster(path, bytes.as_slice()) {
            Ok(img) => match resize_image_to_png(&img, max_width, max_height) {
                Ok(sized) => Ok(sized),
                Err(e) => Err(e.message()),
            },
            Err(e) => Err(String::from_str("open error: ").concat(e.message().as_str())),
        },
        Err(reason) => Err(String::from_str("open error: ").concat(reason.as_str())),
    }
}

/// Decodes, scales and encodes the files that were read, in parallel. The
/// result at a place belongs to the path and the file at that place.
pub fn load_all(
    paths: &Vec<String>,
    files: &Vec<Result<Vec<u8>, String>>,
    max_width: u32,
    max_height: u32,
) -> (out: Vec<Result<(Vec<u8>, u32, u32), String>>)
    requires
        paths@.len() == files@.len(),
    ensures
        out@.len() == paths@.len(),
        forall|i: int|
            0 <= i < out@.len() ==> loads(
                paths@[i]@,
                files@[i],
                max_width,
                max_height,
                #[trigger] out@[i],
            ),
{
    let one = |i: usize| -> (loaded: Result<(Vec<u8>, u32, u32), String>)
        requires
            i < paths@.len(),
        ensures
            loads(paths@[i as int]@, files@[i as int], max_width, max_height, loaded),
        { load_one(paths[i].as_str(), &files[i], max_width, max_height) };
    let out = par_map_index(paths.len(), one);
    assert forall|i: int| 0 <= i < out@.len() implies loads(
        paths@[i]@,
        files@[i],
        max_width,
        max_height,
        #[trigger] out@[i],
    ) by {
        assert(call_ensures(one, (i as usize,), out@[i]));
    }
    out
}

/// The cache after the first `n` results were stored: every image that was
/// loaded is inserted under the key of its path, in order.
pub open spec fn stored(
    start: CacheModel,
    paths: Seq<Seq<char>>,
    loaded: Seq<Result<(Vec<u8>, u32, u32), String>>,
    max_width: u32,
    max_height: u32,
    n: int,
) -> CacheModel
    decreases n,
{
    if n <= 0 {
        start
    } else {
        let before = stored(start, paths, loaded, max_width, max_height, n - 1);
        match loaded[n - 1] {
            Ok(sized) => before.inserted(
                cache_key_text(paths[n - 1], max_width, max_height),
                CachedImage { data: sized.0, width: sized.1, height: sized.2 },
            ),
            Err(_) => before,
        }
    }
}

/// The status of one result.
pub open spec fn status_of(path: Seq<char>, loaded: Result<(Vec<u8>, u32, u32), String>) -> Seq<
    char,
> {
    match loaded {
        Ok(_) => loaded_status(path),
        Err(reason) => error_status(path, reason@),
    }
}

/// Stores the images that were loaded in the cache and reports a status for
/// every path, in order.
pub fn store_loaded(
    cache: &mut ImageCache,
    paths: &Vec<String>,
    loaded: Vec<Result<(Vec<u8>, u32, u32), String>>,
    max_width: u32,
    max_height: u32,
) -> (statuses: Vec<String>)
    requires
        paths@.len() == loaded@.len(),
    ensures
        final(cache)@ == stored(
            old(cache)@,
            texts(paths@),
            loaded@,
            max_width,
            max_height,
            paths@.len() as int,
        ),
        statuses@.len() == paths@.len(),
        forall|i: int|
            0 <= i < paths@.len() ==> (#[trigger] statuses@[i])@ == status_of(
                paths@[i]@,
                loaded@[i],
            ),
{
    let mut statuses: Vec<String> = Vec::new();
    let mut loaded = loaded;
    let ghost all = loaded@;
    let mut i: usize = 0;
    while i < paths.len()
        invariant
            i <= paths@.len(),
            paths@.len() == all.len(),
            loaded@.len() == all.len(),
            forall|k: int| i <= k < all.len() ==> loaded@[k] == all[k],
            cache@ == stored(old(cache)@, texts(paths@), all, max_width, max_height, i as int),
            statuses@.len() == i,
            forall|k: int|
                0 <= k < i ==> (#[trigger] statuses@[k])@ == status_of(paths@[k]@, all[k]),
        decreases paths@.len() - i,
    {
        let path = &paths[i];
        let mut item: Result<(Vec<u8>, u32, u32), String> = Err(String::new());
        core::mem::swap(&mut item, &mut loaded[i]);
        assert(item == all[i as int]);
        assert(texts(paths@)[i as int] == paths@[i as int]@);
        match item {
            Ok(sized) => {
                let key = cache_key(path.as_str(), max_width, max_height);
                cache.insert(key, CachedImage { data: sized.0, width: sized.1, height: sized.2 });
                statuses.push(String::from_str("loaded:").concat(path.as_str()));
            },
            Err(reason) => {
                let status = String::from_str("error:").concat(path.as_str()).concat(":").concat(
                    reason.as_str(),
                );
                proof {
                    reveal_strlit(":");
                }
                assert(status@ =~= error_status(path@, reason@));
                statuses.push(status);
            },
        }
        i = i + 1;
    }
    statuses
}

/// The paths that are not held among the first `i` are the first of those
/// among the first `n`.
pub proof fn lemma_unheld_grows(paths: Seq<Seq<char>>, held: Seq<bool>, i: int, n: int)
    requires
        0 <= i <= n,
    ensures
        unheld(paths, held, i).len() <= unheld(paths, held, n).len(),
        forall|k: int|
            0 <= k < unheld(paths, held, i).len() ==> unheld(paths, held, n)[k]
                == #[trigger] unheld(paths, held, i)[k],
    decreases n - i,
{
    if i < n {
        lemma_unheld_grows(paths, held, i, n - 1);
    }
}

/// The status of the path at place `i`: `cached` where its preview was
/// held, else what loading its file gave. The result of a path that was not
/// held stands at the place that the path has among those not held.
pub open spec fn preload_status(
    paths: Seq<Seq<char>>,
    held: Seq<bool>,
    loaded: Seq<Result<(Vec<u8>, u32, u32), String>>,
    i: int,
) -> Seq<char> {
    if held[i] {
        cached_status(paths[i])
    } else {
        status_of(paths[i], loaded[unheld(paths, held, i).len() as int])
    }
}

/// Tells for every path whether the cache holds its preview within the
/// bounds.
pub fn held_in_cache(cache: &ImageCache, paths: &Vec<String>, max_width: u32, max_height: u32) -> (held:
    Vec<bool>)
    ensures
        held@ == held_of(cache@.entries, texts(paths@), max_width, max_height),
{
    let mut held: Vec<bool> = Vec::new();
    let mut i: usize = 0;
    while i < paths.len()
        invariant
            i <= paths@.len(),
            held@.len() == i,
            forall|k: int|
                0 <= k < i ==> #[trigger] held@[k] == cache@.entries.contains_key(
                    cache_key_text(paths@[k]@, max_width, max_height),
                ),
        decreases paths@.len() - i,
    {
        let key = cache_key(paths[i].as_str(), max_width, max_height);
        held.push(cache.get(key.as_str()).is_some());
        i = i + 1;
    }
    assert(held@ =~= held_of(cache@.entries, texts(paths@), max_width, max_height));
    held
}

/// Picks the paths that are not held.
pub fn pick_unheld(paths: &Vec<String>, held: &Vec<bool>) -> (picked: Vec<String>)
    requires
        held@.len() == paths@.len(),
    ensures
        texts(picked@) == unheld(texts(paths@), held@, paths@.len() as int),
{
    let mut picked: Vec<String> = Vec::new();
    let mut i: usize = 0;
    while i < paths.len()
        invariant
            i <= paths@.len(),
            held@.len() == paths@.len(),
            texts(picked@) == unheld(texts(paths@), held@, i as int),
        decreases paths@.len() - i,
    {
        let ghost before = texts(picked@);
        assert(texts(paths@)[i as int] == paths@[i as int]@);
        if !held[i] {
            picked.push(paths[i].clone());
            assert(texts(picked@) =~= before.push(paths@[i as int]@));
        }
        i = i + 1;
    }
    picked
}

/// Stores the results of loading the paths that were not held, and reports
/// one status for every path, in the order of the paths: `cached` for a
/// path that was held, `loaded` or `error` for any other. This step only
/// stores and reports; `loaded` holds the results for the paths that are
/// not held, in their order.
pub fn store_preloaded(
    cache: &mut ImageCache,
    paths: &Vec<String>,
    held: &Vec<bool>,
    loaded: Vec<Result<(Vec<u8>, u32, u32), String>>,
    max_width: u32,
    max_height: u32,
) -> (statuses: Vec<String>)
    requires
        held@.len() == paths@.len(),
        loaded@.len() == unheld(texts(paths@), held@, paths@.len() as int).len(),
    ensures
        final(cache)@.is_tidy(),
        final(cache)@ == stored(
            old(cache)@,
            unheld(texts(paths@), held@, paths@.len() as int),
            loaded@,
            max_width,
            max_height,
            loaded@.len() as int,
        ),
        statuses@.len() == paths@.len(),
        forall|i: int|
            0 <= i < paths@.len() ==> (#[trigger] statuses@[i])@ == preload_status(
                texts(paths@),
                held@,
                loaded@,
                i,
            ),
{
    let ghost names = texts(paths@);
    let ghost results = loaded@;
    let picked = pick_unheld(paths, held);
    assert(texts(picked@).len() == picked@.len());
    let part = store_loaded(cache, &picked, loaded, max_width, max_height);
    proof {
        use_type_invariant(&*cache);
        assert(part@.len() == part.len());
    }
    let mut statuses: Vec<String> = Vec::new();
    let mut k: usize = 0;
    let mut i: usize = 0;
    while i < paths.len()
        invariant
            i <= paths@.len(),
            names == texts(paths@),
            held@.len() == paths@.len(),
            texts(picked@) == unheld(names, held@, paths@.len() as int),
            part@.len() == picked@.len(),
            part@.len() <= usize::MAX,
            results.len() == picked@.len(),
            forall|j: int|
                0 <= j < picked@.len() ==> (#[trigger] part@[j])@ == status_of(
                    picked@[j]@,
                    results[j],
                ),
            k == unheld(names, held@, i as int).len(),
            statuses@.len() == i,
            forall|j: int|
                0 <= j < i ==> (#[trigger] statuses@[j])@ == preload_status(
                    names,
                    held@,
                    results,
                    j,
                ),
        decreases paths@.len() - i,
    {
        proof {
            lemma_unheld_grows(names, held@, i as int + 1, paths@.len() as int);
            assert(names[i as int] == paths@[i as int]@);
        }
        if held[i] {
            statuses.push(String::from_str("cached:").concat(paths[i].as_str()));
        } else {
            proof {
                let now = unheld(names, held@, i as int + 1);
                assert(now.len() == k + 1);
                assert(now[k as int] == names[i as int]);
                assert(texts(picked@).len() == picked@.len());
                assert(k + 1 <= part@.len());
                assert(texts(picked@)[k as int] == picked@[k as int]@);
            }
            statuses.push(part[k].clone());
            k = k + 1;
        }
        i = i + 1;
    }
    statuses
}

/// The paths were preloaded with these results: every path whose preview
/// the cache lacked has the result of loading its file, the cache went
/// through storing the results in order, and every path has its status.
pub open spec fn preloaded(
    before: CacheModel,
    after: CacheModel,
    paths: Seq<Seq<char>>,
    files: Seq<Result<Vec<u8>, String>>,
    loaded: Seq<Result<(Vec<u8>, u32, u32), String>>,
    statuses: Seq<String>,
    max_width: u32,
    max_height: u32,
) -> bool {
    let held = held_of(before.entries, paths, max_width, max_height);
    let picked = unheld(paths, held, paths.len() as int);
    &&& loaded.len() == picked.len()
    &&& forall|k: int|
        0 <= k < loaded.len() ==> loads(
            picked[k],
            files[k],
            max_width,
            max_height,
            #[trigger] loaded[k],
        )
    &&& stored(before, picked, loaded, max_width, max_height, picked.len() as int) == after
    &&& forall|i: int|
        0 <= i < paths.len() ==> (#[trigger] statuses[i])@ == preload_status(
            paths,
            held,
            loaded,
            i,
        )
}

/// Preloads the previews of a list of paths and reports one status for
/// every path, in the order of the paths: `cached` for a path whose preview
/// the cache held, `loaded` for one that was loaded and stored, `error` for
/// one that failed. `files` holds what was read for the paths that
/// `paths_to_load` picks, in their order.
pub fn preload_images(
    cache: &mut ImageCache,
    paths: &Vec<String>,
    files: &Vec<Result<Vec<u8>, String>>,
    max_width: u32,
    max_height: u32,
) -> (statuses: Vec<String>)
    requires
        files@.len() == uncached(
            old(cache)@.entries,
            texts(paths@),
            max_width,
            max_height,
            paths@.len() as int,
        ).len(),
    ensures
        final(cache)@.is_tidy(),
        statuses@.len() == paths@.len(),
        exists|loaded: Seq<Result<(Vec<u8>, u32, u32), String>>| #[trigger]
            preloaded(
                old(cache)@,
                final(cache)@,
                texts(paths@),
                files@,
                loaded,
                statuses@,
                max_width,
                max_height,
            ),
{
    let held = held_in_cache(cache, paths, max_width, max_height);
    let picked = pick_unheld(paths, &held);
    assert(texts(picked@).len() == picked@.len());
    let loaded = load_all(&picked, files, max_width, max_height);
    let ghost results = loaded@;
    let statuses = store_preloaded(cache, paths, &held, loaded, max_width, max_height);
    proof {
        let names = unheld(texts(paths@), held@, paths@.len() as int);
        assert forall|j: int| 0 <= j < results.len() implies loads(
            names[j],
            files@[j],
            max_width,
            max_height,
            #[trigger] results[j],
        ) by {
            assert(texts(picked@)[j] == picked@[j]@);
        }
        assert(preloaded(
            old(cache)@,
            cache@,
            texts(paths@),
            files@,
            results,
            statuses@,
            max_width,
            max_height,
        ));
    }
    statuses
}

} // verus!
