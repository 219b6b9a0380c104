use enigmap::image::{ColorMode, Image};

#[test]
fn new_image_is_black() {
    let image = Image::new(3, 2, ColorMode::Rgb);
    assert_eq!(image.width(), 3);
    assert_eq!(image.height(), 2);
    assert_eq!(image.buffer(), &[0u8; 18][..]);
    assert!(!image.is_rgba());
    let image = Image::new(3, 2, ColorMode::Rgba);
    assert_eq!(image.buffer().len(), 24);
    assert!(image.is_rgba());
    assert_eq!(*image.color_mode(), ColorMode::Rgba);
    assert_eq!(ColorMode::Rgb.channels(), 3);
    assert_eq!(ColorMode::Rgba.channels(), 4);
}

#[test]
fn pixels_are_put_and_got() {
    let mut image = Image::new(3, 2, ColorMode::Rgb);
    image.put_pixel(1, 1, [7, 8, 9]);
    assert_eq!(image.get_pixel(1, 1), &[7, 8, 9]);
    assert_eq!(image.get_pixel(0, 1), &[0, 0, 0]);
    assert_eq!(&image.buffer()[12..15], &[7, 8, 9]);
    image.put_hor_line((0, 2), 0, [1, 2, 3]);
    assert_eq!(&image.buffer()[0..9], &[1, 2, 3, 1, 2, 3, 0, 0, 0]);
    image.put_hor_line((2, 2), 0, [5, 5, 5]);
    assert_eq!(image.get_pixel(2, 0), &[0, 0, 0]);
    image.buffer_mut()[17] = 200;
    assert_eq!(image.get_pixel(2, 1), &[0, 0, 200]);
}

#[test]
fn pixels_with_opacity_take_four_bytes() {
    let mut image = Image::new(2, 2, ColorMode::Rgba);
    image.put_pixel_rgba(1, 0, [1, 2, 3, 4]);
    assert_eq!(&image.buffer()[0..8], &[0, 0, 0, 0, 1, 2, 3, 4]);
}

#[test]
fn image_from_a_function_and_from_a_buffer() {
    let image = Image::from_fn(3, 2, |x, y| [x as u8, y as u8, 9]);
    assert_eq!(image.get_pixel(2, 1), &[2, 1, 9]);
    assert_eq!(image.get_pixel(0, 0), &[0, 0, 9]);
    assert!(!image.is_rgba());
    let image = Image::from_fn_rgba(2, 2, |x, y| [x as u8, y as u8, 9, 255]);
    assert_eq!(&image.buffer()[12..16], &[1, 1, 9, 255]);
    assert!(image.is_rgba());
    let image = Image::from_buffer(1, 2, vec![1, 2, 3, 4, 5, 6], ColorMode::Rgb);
    assert_eq!(image.get_pixel(0, 1), &[4, 5, 6]);
    assert_eq!((image.width(), image.height()), (1, 2));
}
