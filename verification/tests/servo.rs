use dantesync::config::{ServoConfig, SystemConfig};
use dantesync::ieee::double::Double;
use dantesync::servo::PiServo;

fn native(x: Double) -> f64 {
    f64::from_bits(x.to_bits())
}

fn double(x: f64) -> Double {
    Double::from_bits(x.to_bits())
}

struct Servo(PiServo);

impl Servo {
    fn new(config: ServoConfig) -> Self {
        Servo(PiServo::new(config))
    }

    fn sample(&mut self, offset_ns: i64) -> f64 {
        native(self.0.sample(offset_ns))
    }

    fn reset(&mut self) {
        self.0.reset();
    }

    fn integral(&self) -> f64 {
        native(self.0.get_integral())
    }
}

fn get_test_config(kp: f64, ki: f64) -> ServoConfig {
    ServoConfig {
        kp: double(kp),
        ki: double(ki),
        max_freq_adj_ppm: double(2_000_000.0),
        max_integral_ppm: double(15_000.0),
    }
}

#[test]
fn test_servo_proportional() {
    // Zero Ki, purely Proportional
    let mut servo = Servo::new(get_test_config(0.001, 0.0));
    
    // Offset 1000ns (ahead) -> Error -1000 -> Adj -1.0 ppm
    let adj = servo.sample(1000);
    assert!((adj - -1.0).abs() < 0.0001);
}

#[test]
fn test_servo_output_clamping() {
    let mut servo = Servo::new(get_test_config(1.0, 0.0)); // High Kp
    
    // Huge offset: 1s = 1,000,000,000ns.
    // P = -1e9.
    // Should clamp to -2,000,000.0
    let adj = servo.sample(1_000_000_000);
    assert_eq!(adj, -2000000.0);
}

#[test]
fn test_servo_integral_accumulation() {
    let mut servo = Servo::new(get_test_config(0.0, 0.001)); // Pure Integral
    
    // Error -1000. I += -1.0. Adj -1.0
    let adj1 = servo.sample(1000);
    assert!((adj1 - -1.0).abs() < 0.0001);
    
    // Error -1000 again. I += -1.0 -> -2.0. Adj -2.0
    let adj2 = servo.sample(1000);
    assert!((adj2 - -2.0).abs() < 0.0001);
}

#[test]
fn test_servo_reset() {
    let mut servo = Servo::new(get_test_config(0.0, 0.001));
    servo.sample(1000); // I = -1.0
    assert!(servo.integral().abs() > 0.0);
    
    servo.reset();
    assert_eq!(servo.integral(), 0.0);
    
    let adj = servo.sample(0);
    assert_eq!(adj, 0.0);
}

#[test]
fn test_servo_integral_clamping() {
    let mut config = get_test_config(0.0, 1.0);
    config.max_integral_ppm = double(200.0);
    let mut servo = Servo::new(config); 
    
    // Huge error to trigger clamp
    servo.sample(-20000); 
    
    assert!((servo.integral() - 200.0).abs() < 0.0001);
    
    let adj = servo.sample(0); 
    assert!((adj - 200.0).abs() < 0.0001);
}

#[test]
fn servo_agrees_with_native_arithmetic() {
    let mut servo = Servo::new(get_test_config(0.0007, 0.00003));
    let mut integral = 0.0f64;
    for i in 0..500i64 {
        let offset = (i * 7919 % 100_003 - 50_000) * 31;
        let error = -offset as f64;
        integral += error * 0.00003;
        if integral > 15_000.0 {
            integral = 15_000.0;
        } else if integral < -15_000.0 {
            integral = -15_000.0;
        }
        let raw = error * 0.0007 + integral;
        let expected = raw.clamp(-2_000_000.0, 2_000_000.0);
        assert_eq!(servo.sample(offset), expected);
        assert_eq!(servo.integral(), integral);
    }
    assert_eq!(servo.0.get_sample_count(), 500);
}

#[test]
fn clamping_is_noted() {
    let mut config = get_test_config(1.0, 1.0);
    config.max_integral_ppm = double(10.0);
    config.max_freq_adj_ppm = double(100.0);
    let mut servo = Servo::new(config);
    assert_eq!(servo.sample(-1_000), 100.0);
    assert!(servo.0.integral_clamped);
    assert!(servo.0.output_clamped);
    assert_eq!(servo.sample(0), 10.0);
    assert!(!servo.0.integral_clamped);
    assert!(!servo.0.output_clamped);
}

#[test]
fn adjustment_opposes_the_offset() {
    for offset in [1i64, 999, 1_000_000, i64::MAX] {
        let mut ahead = Servo::new(SystemConfig::default().servo);
        assert!(ahead.sample(offset) <= 0.0);
        let mut behind = Servo::new(SystemConfig::default().servo);
        assert!(behind.sample(-offset) >= 0.0);
    }
}

#[test]
fn default_parameters() {
    let c = SystemConfig::default();
    assert_eq!(native(c.servo.kp), 0.0005);
    assert_eq!(native(c.servo.ki), 0.00005);
    assert_eq!(native(c.servo.max_freq_adj_ppm), 500.0);
    assert_eq!(native(c.servo.max_integral_ppm), 100.0);
    assert_eq!(c.filters.sample_window_size, 4);
    assert_eq!(c.filters.min_delta_ns, 1_000_000);
    assert_eq!(c.filters.step_threshold_ns, 5_000_000);
    assert_eq!(c.filters.panic_threshold_ns, 10_000_000);
    let w = SystemConfig::windows();
    assert_eq!(native(w.servo.kp), 0.005);
    assert_eq!(native(w.servo.ki), 0.0005);
    assert_eq!(native(w.servo.max_freq_adj_ppm), 10_000.0);
    assert_eq!(native(w.servo.max_integral_ppm), 5_000.0);
    assert_eq!(w.filters.sample_window_size, 8);
    assert_eq!(w.filters.step_threshold_ns, 1_500_000);
    assert_eq!(w.filters.panic_threshold_ns, 5_000_000);
    assert_eq!(w.filters.min_delta_ns, 0);
}
