use volume_controller::gfx::image_uri::{
    generate_cache_key, icon_file, lcd_icon, picture_data_uri, png_data_uri, transparent_icon,
    BarPosition, VolumeBarCache,
};
use volume_controller::gfx::layout::{
    bar_fill, bar_outline, bar_pointer, bar_shapes, blank_bar, fit_text, lcd_background, lcd_bar,
    lcd_border, lcd_steps, lcd_surroundings, percent_label, split_bar,
};
use volume_controller::gfx::pixmap::{Pixmap, Rgba};
use volume_controller::gfx::shape::{paint, RoundRect, Shape, Zone};

const WHITE: Rgba = Rgba { r: 255, g: 255, b: 255, a: 255 };
const BLACK: Rgba = Rgba { r: 0, g: 0, b: 0, a: 255 };
const CLEAR: Rgba = Rgba { r: 0, g: 0, b: 0, a: 0 };

/// Signed distance from a point to a rounded rectangle, in floating point.
fn distance(px: f32, py: f32, rect: [f32; 5]) -> f32 {
    let [x, y, width, height, radius] = rect;
    let dx = (px - x - width / 2.0).abs() - (width / 2.0 - radius);
    let dy = (py - y - height / 2.0).abs() - (height / 2.0 - radius);
    let outside = (dx.max(0.0).powi(2) + dy.max(0.0).powi(2)).sqrt();
    let inside = dx.max(dy).min(0.0);
    outside + inside - radius
}

fn outline_reference(px: u32, py: u32, rect: [f32; 5], t: f32, color: Rgba) -> Zone {
    let [x, y, w, h, r] = rect;
    let outer = distance(px as f32, py as f32, rect);
    let inner_rect = [x + t, y + t, w - t * 2.0, h - t * 2.0, (r - t).max(0.0)];
    let inner = distance(px as f32, py as f32, inner_rect);
    if outer <= 0.0 && inner > 0.0 {
        let mut alpha: f32 = 1.0;
        if outer > -1.0 {
            alpha = alpha.min(-outer);
        }
        if inner < 1.0 {
            alpha = alpha.min(inner);
        }
        if alpha >= 1.0 {
            return Zone::Solid(color);
        }
        if alpha > 0.0 {
            return Zone::Edge(color);
        }
    }
    Zone::Keep
}

#[test]
fn outlines_cover_what_the_distance_says() {
    let bar = bar_outline();
    for y in 0..288 {
        for x in 0..144 {
            let expected = outline_reference(x, y, [59.0, 24.0, 26.0, 240.0, 13.0], 6.0, WHITE);
            assert_eq!(bar.zone(x, y), expected, "{x} {y}");
        }
    }
    let border = lcd_border();
    let grey = Rgba { r: 200, g: 200, b: 200, a: 255 };
    for y in 0..100 {
        for x in 0..200 {
            let expected = outline_reference(x, y, [0.0, 0.0, 200.0, 100.0, 12.0], 2.0, grey);
            assert_eq!(border.zone(x, y), expected, "{x} {y}");
        }
    }
}

#[test]
fn pointers_cover_what_the_distance_says() {
    for fill_height in [0, 7, 120, 240, 264] {
        let pointer = bar_pointer(fill_height);
        let (cx, cy) = (72.0f32, (264 - fill_height) as f32);
        let (outer, inner) = (20.0f32, 14.0f32);
        for y in 0..288u32 {
            for x in 0..144u32 {
                let (dx, dy) = (x as f32 - cx, y as f32 - cy);
                let d = (dx * dx + dy * dy).sqrt();
                let mut expected = Zone::Keep;
                if d <= outer {
                    let (alpha, color) = if d >= inner {
                        let mut alpha: f32 = 1.0;
                        if d > outer - 1.0 {
                            alpha = alpha.min(outer - d);
                        }
                        if d < inner + 1.0 {
                            alpha = alpha.min(d - inner);
                        }
                        (alpha, WHITE)
                    } else if d >= inner - 1.0 {
                        ((inner - d).clamp(0.0, 1.0), BLACK)
                    } else {
                        (1.0, BLACK)
                    };
                    if alpha > 0.0 {
                        let edge = d > outer - 1.0
                            || (d >= inner && d < inner + 1.0)
                            || (d < inner && d >= inner - 1.0);
                        expected = if edge { Zone::Edge(color) } else { Zone::Solid(color) };
                    }
                }
                assert_eq!(pointer.zone(x, y), expected, "{fill_height} {x} {y}");
            }
        }
    }
}

#[test]
fn bars_and_surroundings_cover_what_the_distance_says() {
    let track = Rgba { r: 40, g: 40, b: 40, a: 255 };
    let green = Rgba { r: 80, g: 200, b: 120, a: 255 };
    let grey = Rgba { r: 90, g: 90, b: 90, a: 255 };
    let around = lcd_surroundings();
    for (muted, fill) in [(false, green), (true, grey)] {
        let bar = lcd_bar(150, muted);
        for y in 0..100u32 {
            for x in 0..200u32 {
                let (px, py) = (x as f32 + 0.5, y as f32 + 0.5);
                let d = distance(px, py, [108.0, 44.0, 84.0, 20.0, 10.0]);
                let color = if px < 150.0 { fill } else { track };
                let expected = if d > 0.5 {
                    Zone::Keep
                } else if (0.5 - d).clamp(0.0, 1.0) >= 1.0 {
                    Zone::Solid(color)
                } else {
                    Zone::Edge(color)
                };
                assert_eq!(bar.zone(x, y), expected, "{x} {y}");
                let d = distance(px, py, [0.0, 0.0, 200.0, 100.0, 12.0]);
                let expected = if d >= 0.5 {
                    Zone::Solid(CLEAR)
                } else if d > -0.5 {
                    Zone::Edge(CLEAR)
                } else {
                    Zone::Keep
                };
                assert_eq!(around.zone(x, y), expected, "{x} {y}");
            }
        }
    }
}

#[test]
fn fill_reaches_from_the_bottom() {
    for (fill_height, top) in [(264, 30), (240, 30), (234, 30), (233, 31), (120, 144), (7, 257)] {
        let mut img = blank_bar();
        assert!(paint(&mut img, &bar_fill(fill_height)).is_empty());
        for y in 0..288 {
            for x in 0..144 {
                let inside = (65..80).contains(&x) && y >= top && y < 258;
                assert_eq!(img.get(x, y), if inside { WHITE } else { CLEAR }, "{x} {y}");
            }
        }
    }
    let mut img = blank_bar();
    paint(&mut img, &bar_fill(6));
    assert!((0..288).all(|y| (0..144).all(|x| img.get(x, y) == CLEAR)));
}

#[test]
fn drawing_goes_in_order() {
    let shapes = bar_shapes(120);
    let expected = vec![bar_outline(), bar_fill(120), bar_pointer(120)];
    assert_eq!(format!("{shapes:?}"), format!("{expected:?}"));
    let plan = |muted: bool| -> Vec<String> {
        lcd_steps(42, 150, muted).iter().map(|s| format!("{s:?}")).collect()
    };
    let draw = |shape: Shape| format!("Draw({shape:?})");
    assert_eq!(
        plan(false),
        vec![
            "Title".to_string(),
            "Icon".to_string(),
            draw(lcd_bar(150, false)),
            "Percent(\"42%\")".to_string(),
            draw(lcd_border()),
            draw(lcd_surroundings()),
        ]
    );
    let muted = plan(true);
    assert_eq!(muted.len(), 7);
    assert_eq!((muted[2].clone(), muted[5].as_str()), (draw(lcd_bar(150, true)), "Dim"));
}

#[test]
fn painting_covers_solid_pixels_and_reports_edges() {
    let mut img = Pixmap::filled(4, 3, BLACK);
    let shape = Shape::Pointer { x: 1, y: 1, radius: 2, thickness: 0, fill: WHITE, outline: CLEAR };
    let edges = paint(&mut img, &shape);
    let mut seen = 0;
    for y in 0..3 {
        for x in 0..4 {
            let listed = edges.iter().filter(|e| e.x == x && e.y == y).count();
            match shape.zone(x, y) {
                Zone::Solid(c) => assert_eq!((img.get(x, y), listed), (c, 0)),
                Zone::Edge(_) => {
                    assert_eq!((img.get(x, y), listed), (BLACK, 1));
                    seen += 1;
                }
                Zone::Keep => assert_eq!((img.get(x, y), listed), (BLACK, 0)),
            }
        }
    }
    assert_eq!(edges.len(), seen);
    assert_eq!(img.get(1, 1), WHITE);
    let order: Vec<(u32, u32)> = edges.iter().map(|e| (e.y, e.x)).collect();
    let mut sorted = order.clone();
    sorted.sort();
    assert_eq!(order, sorted);
}

#[test]
fn outlines_stay_in_their_rectangle() {
    let rect = RoundRect { x: 3, y: 4, width: 5, height: 6, radius: 2 };
    let shape = Shape::Outline { rect, thickness: 1, color: WHITE };
    for y in 0..20 {
        for x in 0..20 {
            if x < 3 || x > 8 || y < 4 || y > 10 {
                assert_eq!(shape.zone(x, y), Zone::Keep);
            }
        }
    }
}

#[test]
fn halves_make_the_whole() {
    let mut img = blank_bar();
    paint(&mut img, &bar_pointer(120));
    img.put(3, 143, WHITE);
    img.put(4, 144, BLACK);
    let (top, bottom) = split_bar(&img);
    assert_eq!((top.width(), top.height(), bottom.height()), (144, 144, 144));
    for y in 0..144 {
        for x in 0..144 {
            assert_eq!(top.get(x, y), img.get(x, y));
            assert_eq!(bottom.get(x, y), img.get(x, y + 144));
        }
    }
}

#[test]
fn patches_are_cut_off_at_the_edge() {
    let mut img = Pixmap::filled(3, 2, BLACK);
    let mut patch = Pixmap::filled(2, 2, WHITE);
    patch.put(1, 0, CLEAR);
    img.paste(&patch, 2, 1);
    assert_eq!(img.get(2, 1), WHITE);
    assert_eq!(img.get(1, 1), BLACK);
    assert_eq!(img.get(2, 0), BLACK);
    img.paste(&patch, 0, 0);
    assert_eq!((img.get(0, 0), img.get(1, 0), img.get(1, 1)), (WHITE, CLEAR, WHITE));
}

#[test]
fn dimming_is_to_35_percent() {
    for v in 0..=255u8 {
        let mut img = Pixmap::filled(1, 1, Rgba { r: v, g: 255 - v, b: v, a: v });
        img.dim();
        let dim = |c: u8| (c as f32 * 0.35) as u8;
        assert_eq!(img.get(0, 0), Rgba { r: dim(v), g: dim(255 - v), b: dim(v), a: v });
    }
}

#[test]
fn pictures_come_back_from_their_bytes() {
    let mut img = lcd_background();
    img.put(1, 0, WHITE);
    let bytes = img.to_bytes();
    assert_eq!(&bytes[..8], &[18, 18, 18, 255, 255, 255, 255, 255]);
    let back = Pixmap::from_bytes(200, 100, &bytes).unwrap();
    assert_eq!(back.get(1, 0), WHITE);
    assert!(Pixmap::from_bytes(100, 100, &bytes).is_none());
    assert!(Pixmap::from_bytes(200, 100, &bytes[1..]).is_none());
}

#[test]
fn data_uris_give_the_file_back() {
    assert_eq!(png_data_uri(b"Man"), "data:image/png;base64,TWFu");
    assert_eq!(png_data_uri(b"M"), "data:image/png;base64,TQ==");
    let file = vec![0u8, 255, 44, 7];
    assert_eq!(icon_file(&png_data_uri(&file)), Some(file));
    assert_eq!(icon_file("no comma"), Some(vec![]));
    assert_eq!(icon_file("data:,TWFu,x"), None);
    assert_eq!(icon_file(",TWFu"), Some(b"Man".to_vec()));
}

#[test]
fn pictures_are_written_as_png() {
    let mut img = Pixmap::filled(2, 1, BLACK);
    img.put(1, 0, Rgba { r: 1, g: 2, b: 3, a: 4 });
    let uri = picture_data_uri(&img).unwrap();
    let file = icon_file(&uri).unwrap();
    let read = image::load_from_memory(&file).unwrap().to_rgba8();
    assert_eq!((read.width(), read.height()), (2, 1));
    assert_eq!(read.into_raw(), vec![0, 0, 0, 255, 1, 2, 3, 4]);

    // Only canonical base64 is read.
    assert_eq!(icon_file("data:,AQ=="), Some(vec![1]));
    assert_eq!(icon_file("data:,AR=="), None);
    assert_eq!(icon_file("data:,AQ"), None);

    let blank = icon_file(&transparent_icon().unwrap()).unwrap();
    let read = image::load_from_memory(&blank).unwrap().to_rgba8();
    assert_eq!((read.width(), read.height()), (144, 144));
    assert!(read.into_raw().iter().all(|b| *b == 0));
}

#[test]
fn icons_are_scaled_into_their_place() {
    let wide = picture_data_uri(&Pixmap::filled(192, 96, WHITE)).unwrap();
    let icon = lcd_icon(&wide).unwrap();
    assert_eq!((icon.width(), icon.height()), (96, 48));
    assert_eq!(icon.get(50, 20), WHITE);
    let nearly_square = picture_data_uri(&Pixmap::filled(99, 100, WHITE)).unwrap();
    let icon = lcd_icon(&nearly_square).unwrap();
    assert_eq!((icon.width(), icon.height()), (95, 96));
    let line = picture_data_uri(&Pixmap::filled(1000, 1, WHITE)).unwrap();
    let icon = lcd_icon(&line).unwrap();
    assert_eq!((icon.width(), icon.height()), (96, 1));
    assert!(lcd_icon("").is_none());
    assert!(lcd_icon("data:,***").is_none());
    assert!(lcd_icon(&png_data_uri(b"no picture")).is_none());
}

#[test]
fn icons_of_full_size_are_taken_as_they_are() {
    for (width, height) in [(96, 96), (96, 40), (7, 96)] {
        let mut img = Pixmap::filled(width, height, BLACK);
        img.put(3, 5, Rgba { r: 1, g: 2, b: 3, a: 4 });
        img.put(6, 39, WHITE);
        let icon = lcd_icon(&picture_data_uri(&img).unwrap()).unwrap();
        assert_eq!((icon.width(), icon.height()), (width, height));
        assert_eq!(icon.to_bytes(), img.to_bytes());
    }
}

#[test]
fn volume_bars_are_kept_by_volume() {
    assert_eq!(generate_cache_key("50.0", BarPosition::Upper), "vol_50.0_part_Upper");
    assert_eq!(generate_cache_key("50.0", BarPosition::Lower), "vol_50.0_part_Lower");
    let mut cache = VolumeBarCache::new();
    assert!(cache.lookup("50.0").is_none());
    let top = Pixmap::filled(2, 2, WHITE);
    let bottom = Pixmap::filled(2, 2, BLACK);
    let drawn = cache.render("50.0", &top, &bottom).unwrap();
    assert_eq!(Some(drawn.0.clone()), picture_data_uri(&top));
    assert_eq!(Some(drawn.1.clone()), picture_data_uri(&bottom));
    assert_eq!(cache.lookup("50.0"), Some(drawn.clone()));
    assert!(cache.lookup("50.1").is_none());
    cache.render("50.1", &bottom, &top).unwrap();
    assert_eq!(cache.lookup("50.0"), Some(drawn));
}

#[test]
fn texts_are_cut_until_they_fit() {
    assert_eq!(fit_text("grün", &[true, true, true, false, false]), "gr");
    assert_eq!(fit_text("grün", &[true, true, false, true, false]), "grü");
    assert_eq!(fit_text("grün", &[true; 5]), "grün");
    assert_eq!(fit_text("grün", &[false; 5]), "");
    assert_eq!(fit_text("", &[]), "");
}

#[test]
fn percentages_are_shown_whole() {
    assert_eq!(percent_label(0), "0%");
    assert_eq!(percent_label(100), "100%");
    assert_eq!(percent_label(-7), "-7%");
    assert_eq!(percent_label(i32::MIN), "-2147483648%");
}
