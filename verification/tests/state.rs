use auxein_core::json::{parse, Value};
use auxein_core::material::ScalarKind;
use auxein_core::state::{parse_kernel, parse_state, StateText};
use auxein_core::types::{Error, Mode};

const KERNEL: &str = "{\"W\":1.5,\"C\":[0.25,-2],\"V\":0}";

fn geometry_state(memory: &str, eta: &str, layers: &str) -> String {
    format!(
        "{{\"format_version\":5,\"dimension\":2,\"scalar\":\"f32\",\"memory\":{memory},\
         \"eta\":{eta},\"mode\":\"geometry\",\"steps_seen\":7,\"layers\":{layers}}}"
    )
}

fn one_layer(sigma: &str, cells: &str) -> String {
    format!("[{{\"sigma\":[{sigma}],\"cells\":[{cells}]}}]")
}

fn predictive_state(layer: &str) -> String {
    format!(
        "{{\"format_version\":5,\"dimension\":2,\"scalar\":\"f64\",\"memory\":10,\
         \"eta\":0.5,\"mode\":\"predictive\",\"steps_seen\":0,\"layers\":[{layer}]}}"
    )
}

fn read(text: &str) -> Result<StateText, Error> {
    parse_state(parse(text).unwrap())
}

fn invalid_message<T: std::fmt::Debug>(r: Result<T, Error>) -> String {
    match r {
        Err(Error::Invalid(m)) => m,
        other => panic!("expected an Invalid error, got {other:?}"),
    }
}

#[test]
fn geometry_state_is_read_with_its_number_texts() {
    let s = read(&geometry_state("100", "0.25", &one_layer(KERNEL, ""))).unwrap();
    assert_eq!(s.dimension, 2);
    assert_eq!(s.scalar, ScalarKind::F32);
    assert_eq!(s.memory, "100");
    assert_eq!(s.eta, "0.25");
    assert_eq!(s.mode, Mode::Geometry);
    assert_eq!(s.steps_seen, 7);
    assert_eq!(s.layers.len(), 1);
    let layer = &s.layers[0];
    assert_eq!(layer.sigma.len(), 1);
    assert!(layer.cells.is_empty());
    assert!(layer.temporal_sigma.is_empty());
    assert!(layer.previous.is_none());
    assert_eq!(layer.sigma[0].weight, "1.5");
    assert_eq!(layer.sigma[0].center, vec!["0.25".to_string(), "-2".to_string()]);
    assert_eq!(layer.sigma[0].variance, "0");
}

#[test]
fn predictive_state_reads_temporal_kernels_and_previous() {
    let temporal = "{\"W\":2,\"C\":[1,2,3,4],\"V\":0.5}";
    let layer = format!(
        "{{\"sigma\":[],\"cells\":[{KERNEL}],\"temporal_sigma\":[{temporal}],\
         \"temporal_cells\":[],\"previous\":{KERNEL}}}"
    );
    let s = read(&predictive_state(&layer)).unwrap();
    assert_eq!(s.mode, Mode::Predictive);
    assert_eq!(s.scalar, ScalarKind::F64);
    let l = &s.layers[0];
    assert_eq!(l.cells.len(), 1);
    assert_eq!(l.temporal_sigma.len(), 1);
    assert_eq!(l.temporal_sigma[0].center.len(), 4);
    assert_eq!(l.previous.as_ref().unwrap().weight, "1.5");

    let no_previous = format!(
        "{{\"sigma\":[],\"cells\":[],\"temporal_sigma\":[],\"temporal_cells\":[],\"previous\":null}}"
    );
    assert!(read(&predictive_state(&no_previous)).unwrap().layers[0].previous.is_none());
}

#[test]
fn state_shape_errors() {
    assert_eq!(invalid_message(read("[]")), "state must be an object");
    let extra = geometry_state("100", "0.25", "[]").replace("\"steps_seen\"", "\"steps\"");
    assert_eq!(invalid_message(read(&extra)), "state has missing or unknown keys");
    let old = geometry_state("100", "0.25", "[]").replace("\"format_version\":5", "\"format_version\":4");
    assert_eq!(invalid_message(read(&old)), "unsupported format_version");
    let flat = geometry_state("100", "0.25", "[]").replace("\"dimension\":2", "\"dimension\":0");
    assert_eq!(invalid_message(read(&flat)), "invalid state.dimension");
    let wide = geometry_state("100", "0.25", "[]").replace("\"dimension\":2", "\"dimension\":1.5");
    assert_eq!(invalid_message(read(&wide)), "state.dimension must be a nonnegative integer");
    let half = geometry_state("100", "0.25", "[]").replace("\"f32\"", "\"f16\"");
    assert_eq!(invalid_message(read(&half)), "invalid state.scalar");
    let moded = geometry_state("100", "0.25", "[]").replace("\"geometry\"", "\"other\"");
    assert_eq!(invalid_message(read(&moded)), "mode must be 'geometry' or 'predictive'");
    let steps = geometry_state("100", "0.25", "[]").replace("\"steps_seen\":7", "\"steps_seen\":-1");
    assert_eq!(invalid_message(read(&steps)), "state.steps_seen must be a nonnegative integer");
    assert_eq!(
        invalid_message(read(&geometry_state("100", "0.25", "[]"))),
        "state.layers must be nonempty"
    );
    assert_eq!(
        invalid_message(read(&geometry_state("100", "0.25", "{}"))),
        "state.layers must be a list"
    );
}

#[test]
fn memory_must_round_to_a_positive_binary64() {
    let layers = one_layer("", "");
    assert_eq!(
        invalid_message(read(&geometry_state("0", "0.25", &layers))),
        "state.memory must be positive"
    );
    assert_eq!(
        invalid_message(read(&geometry_state("-3", "0.25", &layers))),
        "state.memory must be positive"
    );
    // Below half the smallest subnormal the nearest binary64 is zero.
    assert_eq!(
        invalid_message(read(&geometry_state("1e-400", "0.25", &layers))),
        "state.memory must be positive"
    );
    assert_eq!(
        invalid_message(read(&geometry_state("2.4703282292062327e-324", "0.25", &layers))),
        "state.memory must be positive"
    );
    assert!(read(&geometry_state("2.5e-324", "0.25", &layers)).is_ok());
    assert_eq!(
        invalid_message(read(&geometry_state("\"100\"", "0.25", &layers))),
        "state.memory must be a real number"
    );
}

#[test]
fn eta_must_round_into_the_unit_interval() {
    let layers = one_layer("", "");
    assert!(read(&geometry_state("100", "0", &layers)).is_ok());
    assert!(read(&geometry_state("100", "1", &layers)).is_ok());
    assert!(read(&geometry_state("100", "-0", &layers)).is_ok());
    assert!(read(&geometry_state("100", "-1e-400", &layers)).is_ok());
    // 1 + 2^-53 is a tie and rounds to 1; just above it rounds up.
    assert!(read(&geometry_state("100", "1.00000000000000011102230246251565404236316680908203125", &layers)).is_ok());
    assert_eq!(
        invalid_message(read(&geometry_state(
            "100",
            "1.00000000000000011102230246251565404236316680908203126",
            &layers
        ))),
        "state.eta must lie in [0,1]"
    );
    assert_eq!(
        invalid_message(read(&geometry_state("100", "1.5", &layers))),
        "state.eta must lie in [0,1]"
    );
    assert_eq!(
        invalid_message(read(&geometry_state("100", "-0.001", &layers))),
        "state.eta must lie in [0,1]"
    );
}

#[test]
fn kernel_errors_name_the_kernel() {
    let zero_weight = "{\"W\":0,\"C\":[0,0],\"V\":0}";
    assert_eq!(
        invalid_message(read(&geometry_state("100", "0.5", &one_layer(zero_weight, "")))),
        "state.layers[0].sigma[0].W must be positive"
    );
    let short = "{\"W\":1,\"C\":[0],\"V\":0}";
    assert_eq!(
        invalid_message(read(&geometry_state(
            "100",
            "0.5",
            &one_layer("", &format!("{KERNEL},{short}"))
        ))),
        "state.layers[0].cells[1].C has wrong dimension"
    );
    let negative = "{\"W\":1,\"C\":[0,0],\"V\":-1}";
    assert_eq!(
        invalid_message(read(&geometry_state("100", "0.5", &one_layer(negative, "")))),
        "state.layers[0].sigma[0].V must be nonnegative"
    );
    let tiny_negative = "{\"W\":1,\"C\":[0,0],\"V\":-1e-400}";
    assert!(read(&geometry_state("100", "0.5", &one_layer(tiny_negative, ""))).is_ok());
    let extra = "{\"W\":1,\"C\":[0,0],\"V\":0,\"X\":1}";
    assert_eq!(
        invalid_message(read(&geometry_state("100", "0.5", &one_layer(extra, "")))),
        "state.layers[0].sigma[0] has missing or unknown keys"
    );
    assert_eq!(
        invalid_message(read(&geometry_state("100", "0.5", &one_layer("3", "")))),
        "state.layers[0].sigma[0] must be an object"
    );
    let text_center = "{\"W\":1,\"C\":[0,\"x\"],\"V\":0}";
    assert_eq!(
        invalid_message(read(&geometry_state("100", "0.5", &one_layer(text_center, "")))),
        "center component must be a real number"
    );
}

#[test]
fn predictive_layer_errors() {
    let geometry_layer = "{\"sigma\":[],\"cells\":[]}";
    assert_eq!(
        invalid_message(read(&predictive_state(geometry_layer))),
        "state.layers[0] has missing or unknown keys"
    );
    let flat_temporal = format!(
        "{{\"sigma\":[],\"cells\":[],\"temporal_sigma\":[{KERNEL}],\"temporal_cells\":[],\"previous\":null}}"
    );
    assert_eq!(
        invalid_message(read(&predictive_state(&flat_temporal))),
        "state.layers[0].temporal_sigma[0].C has wrong dimension"
    );
    let bad_previous = "{\"sigma\":[],\"cells\":[],\"temporal_sigma\":[],\"temporal_cells\":[],\
                        \"previous\":{\"W\":-1,\"C\":[0,0],\"V\":0}}";
    assert_eq!(
        invalid_message(read(&predictive_state(bad_previous))),
        "state.layers[0].previous[0].W must be positive"
    );
}

#[test]
fn kernel_reals_are_decided_on_their_texts() {
    let kernel = |w: &str| {
        Value::Object(auxein_core::json::Object {
            entries: vec![
                ("W".to_string(), Value::Number(w.to_string())),
                ("C".to_string(), Value::Array(vec![])),
                ("V".to_string(), Value::Number("0".to_string())),
            ],
        })
    };
    assert!(parse_kernel(kernel("1"), 0, "k").is_ok());
    assert_eq!(invalid_message(parse_kernel(kernel("1e999"), 0, "k")), "W must be finite");
    assert_eq!(invalid_message(parse_kernel(kernel("+1"), 0, "k")), "W must be a real number");
    assert_eq!(invalid_message(parse_kernel(kernel("1e-999"), 0, "k")), "k.W must be positive");
}

fn kernel_text(k: &auxein_core::state::KernelText) -> String {
    format!("{{\"W\":{},\"C\":[{}],\"V\":{}}}", k.weight, k.center.join(","), k.variance)
}

fn kernels_text(ks: &[auxein_core::state::KernelText]) -> String {
    ks.iter().map(kernel_text).collect::<Vec<_>>().join(",")
}

/// The canonical document of a read state, written the way the engine's
/// writer orders its members.
fn canonical(s: &StateText) -> String {
    let layers: Vec<String> = s
        .layers
        .iter()
        .map(|l| match s.mode {
            Mode::Geometry => format!(
                "{{\"sigma\":[{}],\"cells\":[{}]}}",
                kernels_text(&l.sigma),
                kernels_text(&l.cells)
            ),
            Mode::Predictive => format!(
                "{{\"sigma\":[{}],\"cells\":[{}],\"temporal_sigma\":[{}],\"temporal_cells\":[{}],\"previous\":{}}}",
                kernels_text(&l.sigma),
                kernels_text(&l.cells),
                kernels_text(&l.temporal_sigma),
                kernels_text(&l.temporal_cells),
                l.previous.as_ref().map(kernel_text).unwrap_or_else(|| "null".to_string())
            ),
        })
        .collect();
    format!(
        "{{\"format_version\":5,\"dimension\":{},\"scalar\":\"{}\",\"memory\":{},\"eta\":{},\
         \"mode\":\"{}\",\"steps_seen\":{},\"layers\":[{}]}}",
        s.dimension,
        s.scalar.name(),
        s.memory,
        s.eta,
        s.mode.as_str(),
        s.steps_seen,
        layers.join(",")
    )
}

#[test]
fn canonical_documents_read_back_to_themselves() {
    let geometry = "{\"format_version\":5,\"dimension\":2,\"scalar\":\"f32\",\"memory\":100,\
                    \"eta\":0.25,\"mode\":\"geometry\",\"steps_seen\":12,\"layers\":[{\"sigma\":\
                    [{\"W\":1.5,\"C\":[0.25,-2],\"V\":0}],\"cells\":[]},{\"sigma\":[],\"cells\":\
                    [{\"W\":3,\"C\":[1,1],\"V\":0.125}]}]}";
    let s = read(geometry).unwrap();
    assert_eq!(canonical(&s), geometry);
    let predictive = "{\"format_version\":5,\"dimension\":1,\"scalar\":\"f64\",\"memory\":7.5,\
                      \"eta\":1,\"mode\":\"predictive\",\"steps_seen\":0,\"layers\":[{\"sigma\":\
                      [],\"cells\":[{\"W\":2,\"C\":[0.5],\"V\":0}],\"temporal_sigma\":[{\"W\":1,\
                      \"C\":[0.5,0.75],\"V\":0}],\"temporal_cells\":[],\"previous\":{\"W\":1,\"C\":\
                      [0.5],\"V\":0}}]}";
    let s = read(predictive).unwrap();
    assert_eq!(canonical(&s), predictive);
}

#[test]
fn nested_duplicate_keys_are_refused() {
    match parse("{\"a\":{\"b\":1,\"b\":2}}") {
        Err(Error::Json(m)) => assert_eq!(m, "duplicate object key"),
        other => panic!("expected a JSON error, got {other:?}"),
    }
    assert!(parse("{\"a\":{\"b\":1},\"b\":{\"a\":2}}").is_ok());
}
