use voxelcraft::settings::Settings;
use voxelcraft::ui::{row_enabled, row_label, row_value, settings_row, settings_row_list, SettingsRow};

#[test]
fn round_trips_through_disk() {
    let mut s = Settings::default();
    s.render_distance = 6;
    s.cloud_distance = 3;
    s.shadows = false;
    s.clouds = true;
    let text = s.save();
    let loaded = Settings::parse(&text);
    assert_eq!(loaded.render_distance, 6);
    assert_eq!(loaded.cloud_distance, 3);
    assert!(!loaded.shadows);
    assert!(loaded.clouds);
}

#[test]
fn garbage_and_gaps_fall_back_to_defaults() {
    let s = Settings::parse(
        "render_distance=99\ncloud_distance=nope\nshadows=yes\n\nbogus=1\nclouds=true\n",
    );
    // 99 clamps to the slider max; junk strings keep defaults; only
    // exact true/1 count as on.
    assert_eq!(s.render_distance, 32);
    assert_eq!(s.cloud_distance, Settings::default().cloud_distance);
    assert!(!s.shadows);
    assert!(s.clouds);
}

#[test]
fn settings_file_text() {
    let s = Settings::default();
    assert_eq!(
        s.save(),
        "# VoxelCraft settings (hand-editable; invalid lines are ignored)\n\
         render_distance=4\ncloud_distance=7\nshadows=true\nclouds=true\n"
    );
    // Out-of-range sliders come back clamped; read-only toggles reset.
    let mut t = Settings::default();
    t.render_distance = -5;
    t.cloud_distance = 40;
    t.god_rays = true;
    let back = Settings::parse(&t.save());
    assert_eq!(back.render_distance, 1);
    assert_eq!(back.cloud_distance, 10);
    assert!(!back.god_rays);
}

#[test]
fn parse_trims_and_ignores_comments() {
    let s = Settings::parse("  # render_distance=9\n  render_distance = +12  \r\nshadows=1\nclouds=0");
    assert_eq!(s.render_distance, 12);
    assert!(s.shadows);
    assert!(!s.clouds);
    assert_eq!(Settings::parse("").render_distance, 4);
}

#[test]
fn sliders_and_toggles() {
    let mut s = Settings::default();
    s.step_render_distance(40);
    assert_eq!(s.render_distance, 32);
    s.step_cloud_distance(-9);
    assert_eq!(s.cloud_distance, 2);
    s.set_render_distance(0);
    assert_eq!(s.render_distance, 1);
    s.set_cloud_distance(5);
    assert_eq!(s.cloud_distance, 5);
    s.toggle_shadows();
    assert!(!s.shadows);
    s.toggle_clouds();
    assert!(!s.clouds);
}

#[test]
fn wheel_over_settings_rows() {
    let mut s = Settings::default();
    assert!(s.wheel(Some(0), 3));
    assert_eq!(s.render_distance, 7);
    assert!(s.wheel(Some(1), -10));
    assert_eq!(s.cloud_distance, 2);
    assert!(s.wheel(Some(2), 3));
    assert!(!s.shadows);
    assert!(s.wheel(Some(3), -2));
    assert!(s.clouds);
    assert!(!s.wheel(Some(5), 4));
    assert!(!s.wheel(None, 1));
    assert!(!s.wheel(Some(0), 0));
    // Each notch clamps on its own: from past the top, going down steps
    // from the clamped value.
    let mut t = Settings::default();
    t.render_distance = 40;
    t.wheel(Some(0), -2);
    assert_eq!(t.render_distance, 31);
}

#[test]
fn slider_drag_and_toggle_clicks() {
    let mut s = Settings::default();
    assert!(!s.set_slider(0, 4));
    assert!(s.set_slider(0, 50));
    assert_eq!(s.render_distance, 32);
    assert!(s.set_slider(1, 3));
    assert_eq!(s.cloud_distance, 3);
    assert!(s.click_toggle(2));
    assert!(!s.shadows);
    assert!(s.click_toggle(3));
    assert!(!s.clouds);
    assert!(!s.click_toggle(0));
}

#[test]
fn settings_page_rows() {
    let rows = settings_row_list();
    assert_eq!(rows.len(), 7);
    assert_eq!(rows[0], SettingsRow::RenderDistance);
    assert_eq!(settings_row(6), Some(SettingsRow::GodRays));
    assert_eq!(settings_row(7), None);
    assert_eq!(row_label(SettingsRow::RtAo), "RT AMB. OCCLUSION");
    assert!(row_enabled(SettingsRow::Clouds));
    assert!(!row_enabled(SettingsRow::RtShadows));
    let s = Settings::default();
    assert_eq!(row_value(SettingsRow::RenderDistance, &s), "4 CHUNKS");
    assert_eq!(row_value(SettingsRow::CloudDistance, &s), "7 CELLS");
    assert_eq!(row_value(SettingsRow::Shadows, &s), "ON");
    assert_eq!(row_value(SettingsRow::GodRays, &s), "SOON");
}

#[test]
fn last_valid_line_wins_and_planned_options_stay_off() {
    let s = Settings::parse(
        "render_distance = 9\nrender_distance = 12\nrender_distance = lots\ncloud_distance=40\nshadows = yes\nclouds=1\nrt_shadows = true\ngod_rays=1\n",
    );
    assert_eq!(s.render_distance, 12);
    assert_eq!(s.cloud_distance, 10);
    assert!(!s.shadows);
    assert!(s.clouds);
    assert!(!s.rt_shadows && !s.rt_ao && !s.god_rays);
}
