use alacritty_graphics::graphics::ResizeParameter::{Auto, Cells, Pixels, WindowPercent};
use alacritty_graphics::graphics::{ColorType, GraphicId, ResizeCommand, ResizeParameter};
use alacritty_graphics::osc1337::{
    graphic_of, inline_file, inline_params, param_values, parse, resize_param, Params,
};

#[test]
fn parse_osc1337_parameters() {
    let params = [
        b"1337".as_ref(),
        b"File=name=ABCD".as_ref(),
        b"size=3".as_ref(),
        b"inline=1:AAAA".as_ref(),
    ];

    let (params, contents) = param_values(&params).unwrap();

    assert_eq!(params.get("name").unwrap(), "ABCD");
    assert_eq!(params.get("size").unwrap(), "3");
    assert_eq!(params.get("inline").unwrap(), "1");

    assert_eq!(contents, b"AAAA".as_ref())
}

#[test]
fn parse_osc1337_single_parameter() {
    let params = [b"1337".as_ref(), b"File=inline=1:AAAA".as_ref()];

    let (params, contents) = param_values(&params).unwrap();

    assert_eq!(params.get("inline").unwrap(), "1");
    assert_eq!(contents, b"AAAA".as_ref())
}

fn assert_resize(
    param_width: &str,
    param_height: &str,
    width: ResizeParameter,
    height: ResizeParameter,
) {
    let mut params = Params::new();
    params.insert("width", param_width);
    params.insert("height", param_height);

    let resize = resize_param(&params).unwrap();
    assert_eq!(resize.width, width);
    assert_eq!(resize.height, height);
}

#[test]
fn resize_params() {
    assert_resize("auto", "50%", Auto, WindowPercent(50));
    assert_resize("10", "20", Cells(10), Cells(20));
    assert_resize("10%", "50px", WindowPercent(10), Pixels(50));
}

#[test]
fn param_values_needs_the_file_prefix() {
    let params = [b"1337".as_ref(), b"inline=1:AAAA".as_ref()];
    assert!(param_values(&params).is_none());

    let params = [b"1337".as_ref(), b"File".as_ref()];
    assert!(param_values(&params).is_none());
}

#[test]
fn param_values_needs_contents() {
    // No parameters behind the number of the command.
    let params = [b"1337".as_ref()];
    assert!(param_values(&params).is_none());
    let params: [&[u8]; 0] = [];
    assert!(param_values(&params).is_none());

    // No ':' in the last parameter.
    let params = [b"1337".as_ref(), b"File=inline=1".as_ref()];
    assert!(param_values(&params).is_none());

    // The ':' is looked for in the last parameter only.
    let params = [b"1337".as_ref(), b"File=name=a:b".as_ref(), b"inline=1".as_ref()];
    assert!(param_values(&params).is_none());

    // The ':' has to stand behind a '='.
    let params = [b"1337".as_ref(), b"File=inline:AAAA".as_ref()];
    assert!(param_values(&params).is_none());
}

#[test]
fn param_values_splits_at_the_first_separators() {
    let params = [b"1337".as_ref(), b"File=name=a=b".as_ref(), b"x=1:2:3=4".as_ref()];
    let (params, contents) = param_values(&params).unwrap();
    assert_eq!(params.get("name"), Some("a=b"));
    assert_eq!(params.get("x"), Some("1"));
    assert_eq!(contents, b"2:3=4".as_ref());

    // A ':' in a parameter that is not the last one belongs to its value.
    let params = [b"1337".as_ref(), b"File=name=a:b".as_ref(), b"inline=1:".as_ref()];
    let (params, contents) = param_values(&params).unwrap();
    assert_eq!(params.get("name"), Some("a:b"));
    assert_eq!(params.get("inline"), Some("1"));
    assert_eq!(contents, b"".as_ref());
}

#[test]
fn param_values_keeps_the_last_value_of_a_name() {
    let params = [b"1337".as_ref(), b"File=size=1".as_ref(), b"size=2".as_ref(), b"a=:".as_ref()];
    let (params, contents) = param_values(&params).unwrap();
    assert_eq!(params.get("size"), Some("2"));
    assert_eq!(params.get("a"), Some(""));
    assert_eq!(params.get("b"), None);
    assert_eq!(contents, b"".as_ref());
}

#[test]
fn param_values_skips_what_is_no_text() {
    let params = [
        b"1337".as_ref(),
        b"File=name=\xff\xfe".as_ref(),
        b"\xc3=1".as_ref(),
        b"caf\xc3\xa9=ol\xc3\xa9".as_ref(),
        b"inline=1:AAAA".as_ref(),
    ];
    let (params, contents) = param_values(&params).unwrap();
    assert_eq!(params.get("name"), None);
    assert_eq!(params.bytes(b"name"), None);
    assert_eq!(params.bytes(b"\xc3"), None);
    assert_eq!(params.get("caf\u{e9}"), Some("ol\u{e9}"));
    assert_eq!(params.get("inline"), Some("1"));
    assert_eq!(contents, b"AAAA".as_ref());
}

#[test]
fn params_tell_text_from_bytes() {
    let mut params = Params::new();
    params.set(b"raw", b"\xff");
    params.set(b"text", b"abc");
    assert_eq!(params.bytes(b"raw"), Some(b"\xff".as_ref()));
    assert_eq!(params.get("raw"), None);
    assert_eq!(params.get("text"), Some("abc"));
    params.insert("text", "def");
    assert_eq!(params.get("text"), Some("def"));
    assert_eq!(params.bytes(b"text"), Some(b"def".as_ref()));
}

#[test]
fn resize_param_defaults() {
    let params = Params::new();
    assert_eq!(
        resize_param(&params),
        Some(ResizeCommand { width: Auto, height: Auto, preserve_aspect_ratio: true })
    );

    let mut params = Params::new();
    params.insert("preserveAspectRatio", "0");
    params.insert("width", "007");
    assert_eq!(
        resize_param(&params),
        Some(ResizeCommand { width: Cells(7), height: Auto, preserve_aspect_ratio: false })
    );

    let mut params = Params::new();
    params.insert("preserveAspectRatio", "1");
    params.insert("height", "0px");
    assert_eq!(
        resize_param(&params),
        Some(ResizeCommand { width: Auto, height: Pixels(0), preserve_aspect_ratio: true })
    );

    let mut params = Params::new();
    params.insert("preserveAspectRatio", "00");
    assert_eq!(resize_param(&params).unwrap().preserve_aspect_ratio, true);
}

fn resize_of(width: &str) -> Option<ResizeCommand> {
    let mut params = Params::new();
    params.insert("width", width);
    resize_param(&params)
}

#[test]
fn resize_param_largest_number() {
    assert_eq!(resize_of("4294967295").unwrap().width, Cells(4294967295));
    assert_eq!(resize_of("4294967295px").unwrap().width, Pixels(4294967295));
    assert_eq!(resize_of("0004294967295%").unwrap().width, WindowPercent(4294967295));
    assert_eq!(resize_of("4294967296"), None);
    assert_eq!(resize_of("4294967296px"), None);
    assert_eq!(resize_of("99999999999999999999999999"), None);
}

#[test]
fn resize_param_rejects_other_values() {
    assert_eq!(resize_of(""), None);
    assert_eq!(resize_of("px"), None);
    assert_eq!(resize_of("%"), None);
    assert_eq!(resize_of("10em"), None);
    assert_eq!(resize_of("10 px"), None);
    assert_eq!(resize_of("10px "), None);
    assert_eq!(resize_of("10pxx"), None);
    assert_eq!(resize_of("10%%"), None);
    assert_eq!(resize_of("+10"), None);
    assert_eq!(resize_of("-10"), None);
    assert_eq!(resize_of("1.5"), None);
    assert_eq!(resize_of("Auto"), None);
    assert_eq!(resize_of("auto "), None);
    assert_eq!(resize_of("10PX"), None);
    assert_eq!(resize_of("\u{661}\u{660}"), None);

    let mut params = Params::new();
    params.insert("width", "10");
    params.insert("height", "x");
    assert_eq!(resize_param(&params), None);
}

fn png(width: u32, height: u32, alpha: bool) -> Vec<u8> {
    let image = if alpha {
        image::DynamicImage::ImageRgba8(image::RgbaImage::from_pixel(
            width,
            height,
            image::Rgba([1, 2, 3, 4]),
        ))
    } else {
        image::DynamicImage::ImageRgb8(image::RgbImage::from_pixel(
            width,
            height,
            image::Rgb([1, 2, 3]),
        ))
    };
    let mut file = std::io::Cursor::new(Vec::new());
    image.write_to(&mut file, image::ImageOutputFormat::Png).unwrap();
    file.into_inner()
}

fn file_param(prefix: &str, file: &[u8]) -> Vec<u8> {
    let mut param = prefix.as_bytes().to_vec();
    param.extend_from_slice(base64::encode(file).as_bytes());
    param
}

#[test]
fn parse_reads_an_inline_image() {
    let last = file_param("inline=1:", &png(3, 2, false));
    let params = [b"1337".as_ref(), b"File=width=10px".as_ref(), b"height=50%".as_ref(), &last];
    let graphic = parse(&params).unwrap();
    assert_eq!(graphic.id, GraphicId(0));
    assert_eq!(graphic.column, 0);
    assert_eq!(graphic.line, 0);
    assert_eq!(graphic.width, 3);
    assert_eq!(graphic.height, 2);
    assert_eq!(graphic.color_type, ColorType::RGB);
    assert_eq!(graphic.pixels, vec![1, 2, 3, 1, 2, 3, 1, 2, 3, 1, 2, 3, 1, 2, 3, 1, 2, 3]);
    assert_eq!(
        graphic.resize,
        Some(ResizeCommand {
            width: Pixels(10),
            height: WindowPercent(50),
            preserve_aspect_ratio: true
        })
    );
}

#[test]
fn parse_keeps_the_alpha_channel() {
    let last = file_param("File=inline=1:", &png(1, 2, true));
    let params = [b"1337".as_ref(), &last];
    let graphic = parse(&params).unwrap();
    assert_eq!(graphic.width, 1);
    assert_eq!(graphic.height, 2);
    assert_eq!(graphic.color_type, ColorType::RGBA);
    assert_eq!(graphic.pixels, vec![1, 2, 3, 4, 1, 2, 3, 4]);
    assert_eq!(
        graphic.resize,
        Some(ResizeCommand { width: Auto, height: Auto, preserve_aspect_ratio: true })
    );
}

#[test]
fn parse_needs_inline() {
    let file = png(1, 1, false);

    let last = file_param("File=inline=0:", &file);
    assert!(parse(&[b"1337".as_ref(), &last]).is_none());

    let last = file_param("File=name=x:", &file);
    assert!(parse(&[b"1337".as_ref(), &last]).is_none());

    let last = file_param("File=inline=11:", &file);
    assert!(parse(&[b"1337".as_ref(), &last]).is_none());

    let last = file_param("File=inline=1:", &file);
    assert!(parse(&[b"1337".as_ref(), &last]).is_some());
}

#[test]
fn parse_rejects_contents_that_are_no_base64() {
    assert!(parse(&[b"1337".as_ref(), b"File=inline=1:@@@@".as_ref()]).is_none());
    assert!(parse(&[b"1337".as_ref(), b"File=inline=1:A".as_ref()]).is_none());
}

#[test]
fn parse_rejects_contents_that_are_no_image() {
    // Base64 of three zero bytes.
    assert!(parse(&[b"1337".as_ref(), b"File=inline=1:AAAA".as_ref()]).is_none());
    assert!(parse(&[b"1337".as_ref(), b"File=inline=1:".as_ref()]).is_none());
}

#[test]
fn parse_keeps_the_size_where_none_can_be_read() {
    let last = file_param("inline=1:", &png(1, 1, false));
    let params = [b"1337".as_ref(), b"File=width=10em".as_ref(), &last];
    let graphic = parse(&params).unwrap();
    assert_eq!(graphic.width, 1);
    assert_eq!(graphic.height, 1);
    assert_eq!(graphic.resize, None);
}

#[test]
fn inline_file_gives_the_decoded_contents() {
    // Base64 of the bytes 0, 16, 131 and of "Man".
    let params = [b"1337".as_ref(), b"File=name=x".as_ref(), b"inline=1:ABCDTWFu".as_ref()];
    let (values, file) = inline_file(&params).unwrap();
    assert_eq!(file, vec![0, 16, 131, b'M', b'a', b'n']);
    assert_eq!(values.get("name"), Some("x"));
    assert_eq!(values.get("inline"), Some("1"));

    // The contents need not be an image, and may be empty.
    let (_, file) = inline_file(&[b"1337".as_ref(), b"File=inline=1:".as_ref()]).unwrap();
    assert!(file.is_empty());
}

#[test]
fn inline_file_needs_inline_and_base64() {
    assert!(inline_file(&[b"1337".as_ref(), b"File=inline=0:AAAA".as_ref()]).is_none());
    assert!(inline_file(&[b"1337".as_ref(), b"File=name=x:AAAA".as_ref()]).is_none());
    assert!(inline_file(&[b"1337".as_ref(), b"File=inline=1".as_ref()]).is_none());
    assert!(inline_file(&[b"1337".as_ref(), b"Files=inline=1:AAAA".as_ref()]).is_none());
    assert!(inline_file(&[b"1337".as_ref()]).is_none());
    assert!(inline_file(&[b"1337".as_ref(), b"File=inline=1:@@@@".as_ref()]).is_none());
    assert!(inline_file(&[b"1337".as_ref(), b"File=inline=1:A".as_ref()]).is_none());
    assert!(inline_file(&[b"1337".as_ref(), b"File=inline=1:AA=A".as_ref()]).is_none());
    assert!(inline_file(&[b"1337".as_ref(), b"File=inline=1:AAAA".as_ref()]).is_some());
}

#[test]
fn graphic_of_takes_the_image_and_the_size_asked_for() {
    let image = image::DynamicImage::ImageRgb8(image::RgbImage::from_pixel(
        2,
        1,
        image::Rgb([7, 8, 9]),
    ));
    let mut params = Params::new();
    params.insert("width", "3");
    params.insert("preserveAspectRatio", "0");
    let graphic = graphic_of(&params, image.clone());
    assert_eq!(graphic.id, GraphicId(0));
    assert_eq!((graphic.column, graphic.line), (0, 0));
    assert_eq!((graphic.width, graphic.height), (2, 1));
    assert_eq!(graphic.color_type, ColorType::RGB);
    assert_eq!(graphic.pixels, vec![7, 8, 9, 7, 8, 9]);
    assert_eq!(
        graphic.resize,
        Some(ResizeCommand { width: Cells(3), height: Auto, preserve_aspect_ratio: false })
    );

    params.insert("height", "x");
    assert_eq!(graphic_of(&params, image).resize, None);
}

#[test]
fn inline_params_needs_inline() {
    let params = [b"1337".as_ref(), b"File=name=x".as_ref(), b"inline=1:@@".as_ref()];
    let (values, contents) = inline_params(&params).unwrap();
    assert_eq!(values.get("name"), Some("x"));
    assert_eq!(contents, b"@@");

    assert!(inline_params(&[b"1337".as_ref(), b"File=inline=0:AAAA".as_ref()]).is_none());
    assert!(inline_params(&[b"1337".as_ref(), b"File=inline=:AAAA".as_ref()]).is_none());
    assert!(inline_params(&[b"1337".as_ref(), b"File=name=x:AAAA".as_ref()]).is_none());
    assert!(inline_params(&[b"1337".as_ref(), b"inline=1:AAAA".as_ref()]).is_none());
    assert!(inline_params(&[b"1337".as_ref(), b"File=inline=1".as_ref()]).is_none());
}
