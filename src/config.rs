//! Configuration of a run, checked once before it starts.
use vstd::prelude::*;
use crate::models::TradeError;
use crate::strategy::gpt_market_maker::GptMarketMakerConfig;
use crate::trading::executor::BacktestConfig;

verus! {

/// Input settings.
pub struct DataConfig {
    pub batch_size: usize,
    pub show_progress: bool,
}

/// Choice of strategy and its settings.
pub struct StrategyConfig {
    pub name: String,
    pub gpt_market_maker: Option<GptMarketMakerConfig>,
}

/// Settings of a whole run.
pub struct AppConfig {
    pub backtest: BacktestConfig,
    pub strategy: StrategyConfig,
    pub data: DataConfig,
}

impl Default for AppConfig {
    fn default() -> (r: AppConfig)
        ensures
            r.strategy.name@ == "gpt"@,
            r.strategy.gpt_market_maker is Some,
            r.data.batch_size == 10000,
            r.data.show_progress,
            r.backtest.valid(),
    {
        AppConfig {
            backtest: BacktestConfig::default(),
            strategy: StrategyConfig {
                name: String::from_str("gpt"),
                gpt_market_maker: Some(GptMarketMakerConfig::default()),
            },
            data: DataConfig { batch_size: 10000, show_progress: true },
        }
    }
}

/// The configuration is usable: fill, rejection and margin rates in range,
/// the "gpt" strategy with its settings present, and a positive batch size.
/// The strategy's own settings are checked when it is built.
pub open spec fn config_ok(config: AppConfig) -> bool {
    &&& config.backtest.valid()
    &&& config.strategy.name@ == "gpt"@
    &&& config.strategy.gpt_market_maker is Some
    &&& config.data.batch_size > 0
}

/// Accepts a usable configuration; anything else is
/// `InvalidTradeParameters`.
pub fn validate_config(config: &AppConfig) -> (r: Result<(), TradeError>)
    ensures
        r is Ok <==> config_ok(*config),
        r matches Err(e) ==> e is InvalidTradeParameters,
{
    if !config.backtest.is_valid() {
        return Err(TradeError::InvalidTradeParameters(String::from_str("simulator rates out of range")));
    }
    let gpt = String::from_str("gpt");
    if config.strategy.name != gpt {
        return Err(TradeError::InvalidTradeParameters(String::from_str("unknown strategy")));
    }
    if config.strategy.gpt_market_maker.is_none() {
        return Err(TradeError::InvalidTradeParameters(String::from_str("market maker settings are required")));
    }
    if config.data.batch_size == 0 {
        return Err(TradeError::InvalidTradeParameters(String::from_str("batch size must be positive")));
    }
    Ok(())
}

} // verus!
