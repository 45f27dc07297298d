use isotopes::decay::Decay;
use isotopes::app::{Action, App, Screen, scroll_to};
use isotopes::views::{
    Cell, steps, chart_row, ruler, braille, overview_size, overview_ruler, chain_stop, chain_end, link_arrow,
    link_tail,
};
use isotopes::export::{export_order, csv_header, csv_row, CsvFields};
use isotopes::ask::{Readout, ask_context, reply, reply_note};
use isotopes::nuclide::{Nuclide, Real};
use isotopes::record::read_line;
use isotopes::table::Table;

/// A few dozen rows of the evaluated table: the uranium and thorium series,
/// potassium-40 and its daughters, the iron peak, technetium.
const ROWS: &str = "\
# z,n,symbol,jp,abundance,half_life_s,half_life_text,decays,binding,mass_excess,discovery
1,0,H,1/2+,99.9855,STABLE,STABLE,,0,7288.971,1920
6,8,C,0+,,1.79878E11,5700 Y,B-:100,7520.3198,3019.893,1940
18,22,Ar,0+,99.6035,STABLE,STABLE,,8595.2594,-35039.894,1910
19,21,K,4-,0.0117,3.9383E16,1.248E9 Y,B-:89.28 EC:10.72,8538.0907,-33535.49,1935
20,20,Ca,0+,96.941,STABLE,STABLE,,8551.3046,-34846.386,1922
26,28,Fe,0+,5.845,STABLE,STABLE,,8736.3846,-56252.5,1922
26,29,Fe,3/2-,,8.6592E7,2.744 Y,EC:100,8746.5955,-57479.4,1939
26,30,Fe,0+,91.754,STABLE,STABLE,,8790.3557,-60607.1,1922
26,31,Fe,1/2-,2.119,STABLE,STABLE,,8770.2817,-60180.1,1922
26,32,Fe,0+,0.282,STABLE,STABLE,,8792.2527,-62153.4,1922
26,34,Fe,0+,,8.2E13,2.6E6 Y,B-:100,8755.85,-61412,1957
28,34,Ni,0+,3.6346,STABLE,STABLE,,8794.5536,-66746.3,1934
43,54,Tc,9/2+,,1.329E14,4.21E6 Y,EC:100,8623.68,-87221,1946
43,55,Tc,(6)+,,1.3255E14,4.2E6 Y,B-:100,8610.0,-86428,1955
43,56,Tc,9/2+,,6.662E12,2.111E5 Y,B-:100,8613.61,-87327.9,1938
81,127,Tl,5+,,183.18,3.053 M,B-:100,7847.2,-16749.5,1908
82,124,Pb,0+,24.1,STABLE,STABLE,,7875.3622,-23785.4,1927
82,126,Pb,0+,52.4,STABLE,STABLE,,7867.4531,-21748.5,1927
82,128,Pb,0+,,7.0056E8,22.2 Y,B-:100 A:1.9E-6,7835.9645,-14728.3,1900
82,130,Pb,0+,,38304,10.64 H,B-:100,7804.3202,-7547.2,1905
82,132,Pb,0+,,1608,26.8 M,B-:100,7772.3857,-183.5,1904
83,127,Bi,1-,,433036.8,5.012 D,B-:100 A:1.32E-4,7832.5427,-14791.8,1905
83,129,Bi,1(-),,3633,60.55 M,B-:64.06 A:35.94,7803.3116,-8117.2,1904
83,131,Bi,1-,,1194,19.9 M,B-:99.979 A:0.021,7773.0074,1200,1904
84,126,Po,0+,,1.19557E7,138.376 D,A:100,7833.8004,-15952.9,1898
84,128,Po,0+,,2.947E-7,294.7 NS,A:100,7810.2437,-10369.4,1906
84,130,Po,0+,,1.6437E-4,164.37 US,A:100,7785.1164,-4469.9,1904
84,132,Po,0+,,0.145,0.145 S,A:100,7765.2235,1782.5,1911
84,134,Po,0+,,185.88,3.098 M,A:99.98 B-:0.02,7736.9876,8358.2,1904
86,134,Rn,0+,,55.6,55.6 S,A:100,7717.2474,10613.4,1899
86,136,Rn,0+,,330350.4,3.8235 D,A:100,7694.4991,16372.6,1899
88,136,Ra,0+,,316224,3.66 D,A:100,7679.9229,23667.9,1902
88,138,Ra,0+,,5.049E10,1600 Y,A:100,7661.9648,23669.1,1898
88,140,Ra,0+,,1.8145E8,5.75 Y,B-:100,7642.4289,28942.2,1907
89,139,Ac,3+,,22140,6.15 H,B-:100,7621.1522,28896,1908
90,138,Th,0+,,6.0364E7,1.9126 Y,A:100,7645.0869,26772.1,1905
90,140,Th,0+,,2.379E12,7.54E4 Y,A:100,7630.9974,30864.4,1907
90,142,Th,0+,100,4.41E17,1.40E10 Y,A:100 SF:1.1E-9,7615.0338,35448.3,1828
90,144,Th,0+,,2082240,24.1 D,B-:100,7596.8534,40613.6,1900
91,143,Pa,4+,,24120,6.70 H,B-:100,7594.6839,42334,1913
92,142,U,0+,0.0054,7.75E12,2.455E5 Y,A:100 SF:1.64E-9,7600.7152,38146.6,1935
92,143,U,7/2-,0.7204,2.22E16,7.04E8 Y,A:100 SF:7E-9,7590.9151,40920.5,1935
92,146,U,0+,99.2742,1.41E17,4.468E9 Y,A:100 SF:5.45E-5,7570.1262,47308.9,1896
";

fn as_real(s: &str) -> Option<Real> {
    s.parse::<f64>().ok().map(|v| Real { bits: v.to_bits() })
}

fn nuclide(line: &str) -> Option<Nuclide> {
    let r = read_line(line)?;
    Some(Nuclide {
        z: r.z,
        n: r.n,
        symbol: r.symbol,
        jp: r.jp,
        abundance: as_real(&r.abundance),
        half_life_s: as_real(&r.half_life),
        stable: r.stable,
        half_life_text: r.half_life_text,
        decays: r.decays.into_iter().map(|(d, c, p)| (d, c, as_real(&p))).collect(),
        binding: as_real(&r.binding),
        mass_excess: as_real(&r.mass_excess),
        discovery: r.discovery,
    })
}

fn table() -> Table {
    Table::new(ROWS.lines().filter_map(nuclide).collect())
}

fn value(r: Option<Real>) -> f64 {
    f64::from_bits(r.unwrap().bits)
}


fn app_at(t: &Table, z: u32, n: u32) -> App {
    let _ = t;
    App {
        z,
        n,
        mode: 0,
        view: Screen::Chart,
        top_z: 0,
        left_n: 0,
        drawn_at: None,
        chat: Vec::new(),
        status: None,
    }
}

#[test]
fn goto_lands_on_the_nearest_isotope() {
    let t = table();
    let mut app = app_at(&t, 92, 146);
    app.goto(&t, 26, 30);
    assert_eq!((app.z, app.n), (26, 30));
    // No iron-59: iron-58 and iron-60 are equally near, the lighter wins.
    app.goto(&t, 26, 33);
    assert_eq!((app.z, app.n), (26, 32));
    app.goto(&t, 26, 100);
    assert_eq!((app.z, app.n), (26, 34));
    // An element with no isotopes leaves the cursor where it was.
    app.goto(&t, 27, 30);
    assert_eq!((app.z, app.n), (26, 34));
}

#[test]
fn stepping_along_n_skips_the_gaps() {
    let t = table();
    let mut app = app_at(&t, 26, 32);
    app.step_n(&t, 1);
    assert_eq!(app.n, 34);
    app.step_n(&t, 1);
    assert_eq!(app.n, 34);
    app.step_n(&t, -1);
    assert_eq!(app.n, 32);
    let mut app = app_at(&t, 26, 28);
    app.step_n(&t, -1);
    assert_eq!(app.n, 28);
}

#[test]
fn stepping_across_z_keeps_near_the_same_n() {
    let t = table();
    let mut app = app_at(&t, 26, 30);
    app.step_z(&t, 1);
    assert_eq!((app.z, app.n), (28, 34));
    app.step_z(&t, -1);
    assert_eq!((app.z, app.n), (26, 34));
    let mut app = app_at(&t, 82, 126);
    app.step_z(&t, 2);
    assert_eq!((app.z, app.n), (84, 126));
    // Ten elements down, counting only those the table has.
    app.step_z(&t, -10);
    assert_eq!((app.z, app.n), (6, 8));
}

#[test]
fn edges_and_stable_jumps() {
    let t = table();
    let mut app = app_at(&t, 26, 30);
    app.jump_edge(&t, true);
    assert_eq!(app.n, 34);
    app.jump_edge(&t, false);
    assert_eq!(app.n, 28);
    let mut app = app_at(&t, 26, 30);
    app.next_stable(&t, 1);
    assert_eq!((app.z, app.n), (28, 34));
    app.next_stable(&t, 1);
    assert_eq!((app.z, app.n), (82, 124));
    app.next_stable(&t, 1);
    assert_eq!((app.z, app.n), (82, 124));
    app.next_stable(&t, -1);
    assert_eq!((app.z, app.n), (28, 34));
}

#[test]
fn stable_jumps_land_on_the_lightest_stable_isotope() {
    let t = table();
    // From calcium up, iron is the next element with a stable isotope;
    // its lightest stable one is iron-54, not iron-56.
    let mut app = app_at(&t, 20, 20);
    app.next_stable(&t, 1);
    assert_eq!((app.z, app.n), (26, 28));
    // Down from iron, calcium is the first element with a stable one.
    app.next_stable(&t, -1);
    assert_eq!((app.z, app.n), (20, 20));
    // Down from hydrogen there is nothing: the cursor stays.
    let mut app = app_at(&t, 1, 0);
    app.next_stable(&t, -1);
    assert_eq!((app.z, app.n), (1, 0));
    // Along lead, the gaps are skipped one way and the other.
    let mut app = app_at(&t, 82, 126);
    app.step_n(&t, 1);
    assert_eq!(app.n, 128);
    app.step_n(&t, -1);
    assert_eq!(app.n, 126);
    app.step_n(&t, -1);
    assert_eq!(app.n, 124);
    app.step_n(&t, -1);
    assert_eq!(app.n, 124);
}

#[test]
fn keys_move_the_cursor_and_say_what_comes_next() {
    let t = table();
    let mut app = app_at(&t, 26, 30);
    assert_eq!(app.on_key(&t, "RIGHT"), Action::Draw);
    assert_eq!((app.z, app.n), (26, 31));
    assert_eq!(app.on_key(&t, "h"), Action::Draw);
    assert_eq!((app.z, app.n), (26, 30));
    assert_eq!(app.on_key(&t, "END"), Action::Draw);
    assert_eq!((app.z, app.n), (26, 34));
    assert_eq!(app.on_key(&t, "HOME"), Action::Draw);
    assert_eq!((app.z, app.n), (26, 28));
    app.on_key(&t, "UP");
    assert_eq!((app.z, app.n), (28, 34));
    app.on_key(&t, "j");
    assert_eq!((app.z, app.n), (26, 34));
    app.on_key(&t, "TAB");
    assert_eq!((app.z, app.n), (28, 34));
    app.on_key(&t, "S-TAB");
    assert_eq!((app.z, app.n), (26, 28));
    app.on_key(&t, "g");
    assert_eq!((app.z, app.n), (1, 0));
    app.on_key(&t, "G");
    assert_eq!((app.z, app.n), (92, 142));
    app.on_key(&t, "K");
    assert_eq!((app.z, app.n), (92, 142));
    // Ten elements down, counting only those the table has.
    app.on_key(&t, "PgDOWN");
    assert_eq!((app.z, app.n), (43, 56));
    // Colour modes: a digit picks one, m and M cycle.
    assert_eq!(app.on_key(&t, "3"), Action::Draw);
    assert_eq!(app.mode, 2);
    app.on_key(&t, "m");
    app.on_key(&t, "m");
    app.on_key(&t, "m");
    assert_eq!(app.mode, 0);
    app.on_key(&t, "M");
    assert_eq!(app.mode, 4);
    // The view, and what the program does next.
    app.drawn_at = Some((1, 2, 3, 4));
    assert_eq!(app.on_key(&t, "z"), Action::Clear);
    assert_eq!(app.view, Screen::Overview);
    assert_eq!(app.drawn_at, None);
    app.on_key(&t, "z");
    assert_eq!(app.view, Screen::Chart);
    app.drawn_at = Some((1, 2, 3, 4));
    assert_eq!(app.on_key(&t, "RESIZE"), Action::Clear);
    assert_eq!(app.drawn_at, Some((1, 2, 3, 4)));
    assert_eq!(app.on_key(&t, "C-L"), Action::Clear);
    assert_eq!(app.drawn_at, None);
    let here = (app.z, app.n, app.mode);
    for (key, action) in [
        ("q", Action::Quit),
        ("Q", Action::Quit),
        ("ENTER", Action::ShowChain),
        ("/", Action::Find),
        ("c", Action::Ask),
        ("e", Action::Export),
        ("?", Action::Help),
        ("x", Action::Draw),
    ] {
        assert_eq!(app.on_key(&t, key), action, "key {key}");
        assert_eq!((app.z, app.n, app.mode), here, "key {key}");
    }
}

#[test]
fn the_cursor_shows_its_nuclide_and_its_message() {
    let t = table();
    let mut app = app_at(&t, 92, 146);
    assert_eq!(app.cur(&t).name(), "U-238");
    app.say("no nuclide called zz9", (255, 120, 100));
    assert_eq!(app.status, Some(("no nuclide called zz9".to_string(), (255, 120, 100))));
    let app = app_at(&t, 50, 50);
    assert_eq!(app.cur(&t).name(), "H-1");
}

#[test]
fn scrolling_keeps_the_cursor_in_view() {
    let t = table();
    let mut app = app_at(&t, 92, 146);
    scroll_to(&mut app, &t, 84, 20);
    // 80 columns after the axis, a margin of 13; 20 rows, a margin of 3.
    assert_eq!(app.left_n, 146 + 13 + 1 - 80);
    assert!(app.left_n <= 146 && 146 < app.left_n + 80);
    assert_eq!(app.top_z, 92);
    assert!(app.top_z - 20 < 92 && 92 <= app.top_z);
    let mut app = app_at(&t, 1, 0);
    app.top_z = 92;
    app.left_n = 100;
    scroll_to(&mut app, &t, 84, 20);
    assert_eq!(app.left_n, 0);
    assert_eq!(app.top_z, 19);
}

#[test]
fn steps_say_one_step_not_one_steps() {
    assert_eq!(steps(1), "   (1 step)");
    assert_eq!(steps(0), "   (0 steps)");
    assert_eq!(steps(14), "   (14 steps)");
}

#[test]
fn chart_rows_mark_blanks_nuclides_and_the_cursor() {
    let t = table();
    let mut app = app_at(&t, 26, 30);
    app.left_n = 27;
    let row = chart_row(&t, &app, 26, 9);
    assert_eq!(row[0], Cell::Blank);
    assert_eq!(row[1], Cell::Nuclide(t.index(26, 28).unwrap()));
    assert_eq!(row[3], Cell::Cursor);
    assert_eq!(row[6], Cell::Blank);
    assert_eq!(row[7], Cell::Nuclide(t.index(26, 34).unwrap()));
    assert_eq!(row.len(), 9);
}

#[test]
fn rulers_label_every_ten_neutrons() {
    assert_eq!(ruler(0, 30, 40), "    0         10        20");
    assert_eq!(ruler(5, 30, 40), "         10        20        30");
    // A label that would reach the edge of the screen is left out.
    assert_eq!(ruler(0, 30, 25), "    0         10");
}

#[test]
fn the_overview_dots_each_nuclide_in_its_cell() {
    let t = table();
    let (cw, ch) = overview_size(&t, 200, 50);
    assert_eq!((cw, ch), (146 / 2 + 1, 92 / 4 + 1));
    let g = braille(&t, cw, ch);
    assert_eq!(g.len(), cw * ch);
    // Uranium-238: row 0, column 146.
    assert_eq!(g[146 / 2] & 0x01, 0x01);
    // Hydrogen-1: row 91, column 0: fourth sub-row of cell row 22.
    assert_eq!(g[22 * cw] & 0x40, 0x40);
    let dots: u32 = g.iter().map(|b| b.count_ones()).sum();
    assert_eq!(dots as usize, t.all.len());
    let (cw, ch) = overview_size(&t, 12, 2);
    assert_eq!((cw, ch), (10, 4));
}

#[test]
fn exports_sort_by_the_colour_mode() {
    let t = table();
    let by_place = export_order(&t, 0);
    assert_eq!(by_place, (0..t.all.len()).collect::<Vec<_>>());
    let by_binding = export_order(&t, 2);
    assert_eq!(t.all[by_binding[0]].name(), "Ni-62");
    let by_year = export_order(&t, 4);
    assert_eq!(t.all[by_year[0]].name(), "Th-232");
    let by_life = export_order(&t, 1);
    // Stable ones have no half-life and count as infinite; they come
    // first, in table order.
    assert_eq!(t.all[by_life[0]].name(), "H-1");
    let mut seen = by_life.clone();
    seen.sort();
    assert_eq!(seen, (0..t.all.len()).collect::<Vec<_>>());
}

#[test]
fn the_assistant_is_told_the_facts_and_the_chain() {
    let t = table();
    let mut app = app_at(&t, 84, 126);
    app.chat.push(("what is it".to_string(), "polonium".to_string()));
    let readout = Readout {
        half_life: "138.4 d".to_string(),
        branchings: vec![Some("100".to_string())],
        binding: Some("7833.8".to_string()),
        mass_excess: Some("-15952.9".to_string()),
        abundance: None,
    };
    let ctx = ask_context(&t, &app, &readout, "why so hot?");
    assert_eq!(
        ctx,
        "Nuclide: Po-210 — 84 protons, 126 neutrons, mass number 210.\n\
         Half-life: 138.4 d. Decay modes: A 100%.\n\
         Spin/parity: 0+. Binding energy: 7833.8 keV per nucleon. Mass excess: -15952.9 keV.\n\
         First reported: 1898.\n\
         Decay chain: Po-210 → α Pb-206\n\
         \nEarlier in this conversation:\n\
         User: what is it\nYou: polonium\n\n\
         \nQuestion: why so hot?\n"
    );
}

#[test]
fn the_assistant_is_not_told_an_unmeasured_nuclide_is_stable() {
    // Nothing measured: no half-life, no decay mode. Not stable.
    let lines = "1,0,H,1/2+,99.9855,STABLE,STABLE,,0,7288.971,1920\n\
                 3,9,Li,,,,,,,,\n";
    let t = Table::new(lines.lines().filter_map(nuclide).collect());
    assert_eq!(t.all.len(), 2);
    let unmeasured = Readout {
        half_life: "unknown".to_string(),
        branchings: vec![],
        binding: None,
        mass_excess: None,
        abundance: None,
    };
    let app = app_at(&t, 3, 9);
    let ctx = ask_context(&t, &app, &unmeasured, "is it stable?");
    assert_eq!(
        ctx,
        "Nuclide: Li-12 — 3 protons, 9 neutrons, mass number 12.\n\
         Half-life: unknown. Decay modes: unknown.\n\
         Spin/parity: unknown. Binding energy: unknown keV per nucleon. Mass excess: unknown keV.\n\
         \nQuestion: is it stable?\n"
    );
    let hydrogen = Readout {
        half_life: "stable".to_string(),
        branchings: vec![],
        binding: Some("0.0".to_string()),
        mass_excess: Some("7289.0".to_string()),
        abundance: Some("99.9855".to_string()),
    };
    let app = app_at(&t, 1, 0);
    let ctx = ask_context(&t, &app, &hydrogen, "?");
    assert!(ctx.contains("Half-life: stable. Decay modes: none, it is stable.\n"));
}

#[test]
fn the_overview_ruler_labels_every_twenty_neutrons() {
    let t = table();
    let line = [
        "     0", "         20", "        40", "        60", "        80",
        "        100", "       120", "       140",
    ]
    .join("");
    assert_eq!(overview_ruler(&t, 74, 100), format!("{line:<100}"));
    // Only the labels whose column is inside the braille cells.
    assert_eq!(overview_ruler(&t, 20, 10), "     0         20");
}

#[test]
fn the_chain_popup_says_where_a_chain_stops() {
    let t = table();
    let pb = t.get(82, 124).unwrap();
    assert_eq!(chain_stop(pb), "This one is stable. Nothing to follow.");
    let mut odd = t.get(6, 8).unwrap().clone();
    odd.decays.clear();
    assert_eq!(
        chain_stop(&odd),
        "C-14 decays by unknown, which has no single daughter to follow.\n\n\
         Fission fragments and unknown modes end a chain here."
    );
    assert_eq!(link_arrow(Decay::Alpha), format!("{}→", Decay::Alpha.short()));
    assert_eq!(link_tail(pb, &vec![]), "the end");
    let po = t.get(84, 126).unwrap();
    assert_eq!(link_tail(po, &vec![Some("100.0000".to_string())]), "A 100%");
    assert_eq!(chain_end(14, pb), "14 steps, ending at Pb-206, which is stable");
    assert_eq!(chain_end(1, po), "1 step, ending at Po-210");
}

#[test]
fn exported_rows_hold_every_field() {
    let t = table();
    assert!(csv_header().starts_with("nuclide,z,n,a,half_life_s,half_life,decays,"));
    assert!(csv_header().ends_with("spin_parity,discovered\n"));
    let k40 = t.get(19, 21).unwrap();
    let f = CsvFields {
        half_life_s: "39383000000000000".to_string(),
        half_life: "1.248 Gy".to_string(),
        branchings: vec![Some("89.28".to_string()), Some("10.72".to_string())],
        abundance: "0.0117".to_string(),
        binding: "8538.09".to_string(),
        mass_excess: "-33535.49".to_string(),
    };
    assert_eq!(
        csv_row(k40, &f),
        "K-40,19,21,40,39383000000000000,1.248 Gy,\"B- 89.28% | EC 10.72%\",0.0117,8538.09,-33535.49,\"4-\",1935\n"
    );
    let mut bare = t.get(1, 0).unwrap().clone();
    bare.discovery = None;
    let empty = CsvFields {
        half_life_s: String::new(),
        half_life: "stable".to_string(),
        branchings: vec![],
        abundance: String::new(),
        binding: String::new(),
        mass_excess: String::new(),
    };
    assert_eq!(csv_row(&bare, &empty), "H-1,1,0,1,,stable,\"\",,,,\"1/2+\",\n");
}

#[test]
fn the_assistants_reply_is_read_from_its_run() {
    assert_eq!(reply(true, "  the answer \n", "noise"), Ok("the answer".to_string()));
    assert_eq!(reply(false, "out", "bad flag\r\nmore"), Err("bad flag".to_string()));
    assert_eq!(reply(false, "", "last\r"), Err("last\r".to_string()));
    assert_eq!(reply(false, "", ""), Err("(no message)".to_string()));
    let long = "x".repeat(100);
    assert_eq!(reply(false, "", &long), Err("x".repeat(80)));
    assert_eq!(reply(false, "", "\nsecond"), Err(String::new()));
    assert_eq!(reply_note(&Ok("yes".to_string())), None);
    assert_eq!(reply_note(&Ok(String::new())), Some("the assistant returned nothing".to_string()));
    assert_eq!(reply_note(&Err("boom".to_string())), Some("assistant: boom".to_string()));
}
