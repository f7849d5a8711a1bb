use ace::gfx::opengl::{subkey, OpenGlError, OpenGlRenderer};
use ace::gfx::{Image, Texture};

#[test]
fn new_tex_should_hand_out_successive_units() {
    let mut renderer = OpenGlRenderer::init();
    assert_eq!(1, renderer.new_tex());
    assert_eq!(2, renderer.new_tex());
    let material = renderer.new_material();
    assert_eq!(Texture::new(3, 4), material);
    assert_eq!(3, material.albedo());
    assert_eq!(4, material.metallic_roughness_ao());
}

#[test]
fn set_skybox_should_take_the_next_four_units() {
    let mut renderer = OpenGlRenderer::init();
    assert!(renderer.skybox().is_none());
    renderer.new_tex();
    let skybox = renderer.set_skybox(9, 11);
    assert_eq!((9, 11), (skybox.vao, skybox.shader));
    assert_eq!(
        (2, 3, 4, 5),
        (skybox.image, skybox.diffuse, skybox.specular, skybox.brdf_lut)
    );
    assert_eq!(Some(&skybox), renderer.skybox());
    assert_eq!(6, renderer.new_tex());
}

#[test]
fn subkey_should_join_with_a_dot() {
    assert_eq!("uPointLights[0].color", subkey("uPointLights[0]", "color"));
    assert_eq!(".", subkey("", ""));
}

#[test]
fn info_log_should_drop_trailing_nul_padding() {
    let mut log = b"error: syntax".to_vec();
    log.extend(std::iter::repeat(0u8).take(20));
    let err = OpenGlError::from_info_log(log);
    assert_eq!("error: syntax", err.message());
    assert_eq!("", OpenGlError::from_info_log(vec![0, 0, 0]).message());
    assert_eq!("a\0b", OpenGlError::from_info_log(b"a\0b\0".to_vec()).message());
    assert_eq!(OpenGlError::new("x".to_string()), OpenGlError::from_info_log(b"x".to_vec()));
}

#[test]
fn empty_image_should_have_no_pixels() {
    let image = Image::empty();
    assert!(image.data.is_empty());
    assert_eq!((0, 0), (image.width, image.height));
}
