use dmi2svg::convert::rename_of;
use dmi2svg::css::css_rule_text;
use dmi2svg::outline::{generate_paths, path_fragment};
use dmi2svg::raster::{occupancy_mask, rank_colors, ColorCount};
use dmi2svg::text::{opacity_of, push_decimal, OpacityTable};
use dmi2svg::{dmi2css, dmi2svg, dmi2svg_symbol, dmi2svg_symbol_map, Error, Frame, Icon, IconState, Rgba, SVGState};

fn px(r: u8, g: u8, b: u8, a: u8) -> Rgba {
    Rgba { r, g, b, a }
}

fn solid(width: u32, height: u32, c: Rgba) -> Frame {
    Frame { width, height, pixels: vec![c; (width * height) as usize] }
}

fn state(name: &str, images: Vec<Frame>) -> IconState {
    IconState { name: name.to_string(), images }
}

fn two_by_two() -> Frame {
    Frame {
        width: 2,
        height: 2,
        pixels: vec![px(255, 0, 0, 255), px(255, 0, 0, 255), px(0, 0, 0, 0), px(0, 255, 0, 255)],
    }
}

#[test]
fn two_by_two_groups_and_green_mask() {
    let f = two_by_two();
    let ranked = rank_colors(&f);
    assert_eq!(
        ranked,
        vec![
            ColorCount { color: px(255, 0, 0, 255), count: 2 },
            ColorCount { color: px(0, 255, 0, 255), count: 1 },
        ]
    );
    let green = occupancy_mask(&f, px(0, 255, 0, 255));
    assert_eq!(green, vec![vec![0, 0], vec![0, 1]]);
    let red = occupancy_mask(&f, px(255, 0, 0, 255));
    assert_eq!(red, vec![vec![1, 1], vec![0, 0]]);
}

#[test]
fn masks_cover_visible_pixels_once() {
    let f = Frame {
        width: 3,
        height: 2,
        pixels: vec![
            px(1, 2, 3, 255),
            px(0, 0, 0, 0),
            px(9, 9, 9, 40),
            px(1, 2, 3, 255),
            px(9, 9, 9, 40),
            px(7, 0, 0, 0),
        ],
    };
    let ranked = rank_colors(&f);
    assert_eq!(ranked.len(), 2);
    let masks: Vec<Vec<Vec<i8>>> = ranked.iter().map(|c| occupancy_mask(&f, c.color)).collect();
    for y in 0..2usize {
        for x in 0..3usize {
            let set: i32 = masks.iter().map(|m| m[y][x] as i32).sum();
            let visible = f.pixels[y * 3 + x].a != 0;
            assert_eq!(set, if visible { 1 } else { 0 });
        }
    }
}

#[test]
fn equal_counts_follow_color_order() {
    let f = Frame {
        width: 4,
        height: 1,
        pixels: vec![px(9, 0, 0, 255), px(1, 0, 0, 255), px(1, 0, 0, 7), px(0, 5, 0, 255)],
    };
    let ranked: Vec<Rgba> = rank_colors(&f).iter().map(|c| c.color).collect();
    assert_eq!(ranked, vec![px(0, 5, 0, 255), px(1, 0, 0, 7), px(1, 0, 0, 255), px(9, 0, 0, 255)]);
}

#[test]
fn transparent_frame_has_no_paths() {
    let table = OpacityTable::new();
    let f = solid(3, 3, px(10, 20, 30, 0));
    assert!(generate_paths(&f, &table).is_empty());
}

#[test]
fn decimal_text() {
    let mut s = String::from("x");
    push_decimal(&mut s, 0);
    push_decimal(&mut s, 7);
    s.push(' ');
    push_decimal(&mut s, 4096);
    s.push(' ');
    push_decimal(&mut s, 4294967295);
    assert_eq!(s, "x07 4096 4294967295");
}

#[test]
fn opacity_texts() {
    assert_eq!(opacity_of(0), "0");
    assert_eq!(opacity_of(1), "0.004");
    assert_eq!(opacity_of(51), "0.2");
    assert_eq!(opacity_of(128), "0.502");
    assert_eq!(opacity_of(254), "0.996");
    assert_eq!(opacity_of(255), "1");
    let table = OpacityTable::new();
    assert_eq!(table.lookup(128), "0.502");
    assert_eq!(table.lookup(64), "0.251");
}

#[test]
fn opaque_fragment_has_no_opacity() {
    let table = OpacityTable::new();
    let f = solid(1, 1, px(255, 0, 0, 255));
    assert_eq!(path_fragment(&f, px(255, 0, 0, 255), &table), "<path fill=\"rgb(255,0,0)\" d=\"M0 0H1V1H0Z\"/>\n");
}

#[test]
fn translucent_fragment_has_table_opacity() {
    let table = OpacityTable::new();
    let f = solid(1, 1, px(0, 128, 7, 128));
    let paths = generate_paths(&f, &table);
    assert_eq!(paths, vec!["<path fill=\"rgb(0,128,7)\" opacity=\"0.502\" d=\"M0 0H1V1H0Z\"/>\n".to_string()]);
    assert!(paths[0].contains(&format!("opacity=\"{}\"", table.lookup(128))));
}

#[test]
fn two_by_two_paths_in_rank_order() {
    let table = OpacityTable::new();
    let paths = generate_paths(&two_by_two(), &table);
    assert_eq!(
        paths,
        vec![
            "<path fill=\"rgb(255,0,0)\" d=\"M0 0H2V1H0Z\"/>\n".to_string(),
            "<path fill=\"rgb(0,255,0)\" d=\"M1 1H2V2H1Z\"/>\n".to_string(),
        ]
    );
}

#[test]
fn solid_rectangle_document() {
    let icon = Icon { states: vec![state("box", vec![solid(2, 3, px(4, 5, 6, 255))])] };
    let docs = dmi2svg(&icon).unwrap();
    assert_eq!(docs.len(), 1);
    assert_eq!(docs[0].name, "box");
    assert_eq!(
        docs[0].svg,
        "<svg xmlns=\"http://www.w3.org/2000/svg\" width=\"auto\" height=\"auto\" viewBox=\"0 0 2 3\" \
         shape-rendering=\"crispEdges\">\n<path fill=\"rgb(4,5,6)\" d=\"M0 0H2V3H0Z\"/>\n</svg>\n"
    );
    assert_eq!(docs[0].svg.matches("<path").count(), 1);
    assert!(!docs[0].svg.contains("opacity"));
}

#[test]
fn states_keep_their_order() {
    let icon = Icon {
        states: vec![
            state("b", vec![solid(1, 1, px(1, 1, 1, 255))]),
            state("", vec![solid(2, 2, px(2, 2, 2, 255)), solid(1, 1, px(3, 3, 3, 255))]),
            state("b", vec![solid(1, 2, px(0, 0, 0, 0))]),
        ],
    };
    let docs = dmi2svg(&icon).unwrap();
    let names: Vec<&str> = docs.iter().map(|d| d.name.as_str()).collect();
    assert_eq!(names, vec!["b", "", "b"]);
    assert!(docs[0].svg.contains("viewBox=\"0 0 1 1\""));
    assert!(docs[1].svg.contains("viewBox=\"0 0 2 2\""));
    assert!(docs[1].svg.contains("rgb(2,2,2)"));
    assert!(!docs[1].svg.contains("rgb(3,3,3)"));
    assert!(!docs[2].svg.contains("<path"));
}

#[test]
fn conversion_is_repeatable() {
    let icon = Icon {
        states: vec![state("a", vec![two_by_two()]), state("b", vec![solid(3, 1, px(9, 8, 7, 100))])],
    };
    let first = dmi2svg(&icon).unwrap();
    let second = dmi2svg(&icon).unwrap();
    assert_eq!(first, second);
}

#[test]
fn state_without_frames_fails_whole_call() {
    let icon = Icon {
        states: vec![
            state("ok", vec![solid(1, 1, px(1, 1, 1, 255))]),
            state("empty", vec![]),
            state("also_empty", vec![]),
        ],
    };
    match dmi2svg(&icon) {
        Err(Error::NoFirstStateImage(name)) => assert_eq!(name, "empty"),
        other => panic!("unexpected result {:?}", other),
    }
    assert!(matches!(dmi2svg_symbol(&icon), Err(Error::NoFirstStateImage(_))));
}

#[test]
fn symbols_and_renames() {
    let icon = Icon {
        states: vec![state("a", vec![solid(1, 1, px(1, 2, 3, 255))]), state("b", vec![solid(1, 1, px(1, 2, 3, 255))])],
    };
    let plain = dmi2svg_symbol(&icon).unwrap();
    assert_eq!(
        plain[0],
        "<symbol id=\"a\" width=\"auto\" height=\"auto\" viewBox=\"0 0 1 1\">\n\
         <path fill=\"rgb(1,2,3)\" d=\"M0 0H1V1H0Z\"/>\n</symbol>\n"
    );
    let renames = vec![("b".to_string(), "bee".to_string()), ("b".to_string(), "other".to_string())];
    let renamed = dmi2svg_symbol_map(&icon, &renames).unwrap();
    assert!(renamed[0].starts_with("<symbol id=\"a\""));
    assert!(renamed[1].starts_with("<symbol id=\"bee\""));
    assert_eq!(rename_of(&renames, &"c".to_string()), "c");
}

#[test]
fn css_rules_encode_documents() {
    let states = vec![
        SVGState { name: String::new(), svg: "abc".to_string() },
        SVGState { name: "open".to_string(), svg: "ab".to_string() },
    ];
    assert_eq!(
        dmi2css("door", &states),
        ".door.DEFAULT{background-image: url(\"data:image/svg+xml;base64,YWJj\")}\n\
         .door.open{background-image: url(\"data:image/svg+xml;base64,YWI\")}\n"
    );
    assert_eq!(
        css_rule_text("x", &"y".to_string(), &"Zg".to_string()),
        ".x.y{background-image: url(\"data:image/svg+xml;base64,Zg\")}\n"
    );
}
